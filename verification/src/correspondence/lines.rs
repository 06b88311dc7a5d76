//! Align physical rows, and keep the matches that respect container ownership.

use crate::alignment::{
    is_alignment, is_anchored_alignment, is_blocked, law_anchored_alignment_is_maximal, monotone, ordered_matches,
    OrderedMatch,
};
use crate::correspondence::geometry::{
    node_owns_complete_lines, owns_rows, row_span, row_text, zero_based_lines, RowTexts,
};
use crate::correspondence::keys::{key_views, keys_agree, keys_blocked, ordered_key_matches};
use crate::correspondence::links::{
    LeafLink, LeafRelation, LineFallback, LineLink, MatchedUnit, Placement, RelocatedNode,
    UnitEdit,
};
use crate::correspondence::partners::Partners;
use crate::correspondence::scopes::{ascending, lemma_ascending_unique, ScopeProof};
use crate::frontend::adapter::{on_boundaries, range_chars};
use crate::correspondence::tree::{edit_fits, TreeDiff};
use crate::source::{LineEnding, Source, SourceLine};
use crate::span::Span;
use crate::syntax::{NodeId, SyntaxPair};
use crate::text::{chars_of, is_white, white};
use vstd::prelude::*;
use vstd::utf8::encode_utf8_decode_utf8;

verus! {

/// Links ascend in both revisions.
pub open spec fn rows_ascend(links: Seq<LineLink>) -> bool {
    forall|i: int, j: int|
        0 <= i < j < links.len() ==> (#[trigger] links[i]).before < (#[trigger] links[j]).before
            && links[i].after < links[j].after
}

/// Row of the before revision.
pub open spec fn before_row(pair: SyntaxPair, link: LineLink) -> SourceLine {
    pair.before.source.line_seq()[link.before as int]
}

/// Row of the after revision.
pub open spec fn after_row(pair: SyntaxPair, link: LineLink) -> SourceLine {
    pair.after.source.line_seq()[link.after as int]
}

/// Both rows exist.
pub open spec fn link_fits(pair: SyntaxPair, link: LineLink) -> bool {
    link.before < pair.before.source.line_seq().len() && link.after
        < pair.after.source.line_seq().len()
}

/// Same text and same terminator.
pub open spec fn is_exact(pair: SyntaxPair, link: LineLink) -> bool {
    &&& pair.before.source.line_content(before_row(pair, link)) == pair.after.source.line_content(
        after_row(pair, link),
    )
    &&& before_row(pair, link).ending == after_row(pair, link).ending
}

/// Different terminators.
pub open spec fn is_ending_edit(pair: SyntaxPair, link: LineLink) -> bool {
    before_row(pair, link).ending != after_row(pair, link).ending
}

/// Every link joins existing rows, as unchanged or as a terminator edit.
pub open spec fn links_ok(pair: SyntaxPair, links: Seq<LineLink>) -> bool {
    forall|k: int|
        0 <= k < links.len() ==> link_fits(pair, #[trigger] links[k]) && (is_exact(pair, links[k])
            || is_ending_edit(pair, links[k]))
}

/// Whether two rows end alike.
fn same_ending(pair: &SyntaxPair, link: LineLink) -> (same: bool)
    requires
        link_fits(*pair, link),
    ensures
        same == !is_ending_edit(*pair, link),
{
    pair.before.source.lines()[link.before].ending == pair.after.source.lines()[link.after].ending
}

/// Row matches of two ranges, and rows whose terminator is missing on one side.
pub struct PhysicalLineFacts {
    /// Unchanged rows and terminator edits, ascending in both revisions.
    pub links: Vec<LineLink>,
    pub missing_terminators: Vec<LineFallback>,
}

/// Fallback ranges lie in both sources.
pub open spec fn fallback_fits(pair: SyntaxPair, fallback: LineFallback) -> bool {
    &&& fallback.before.start <= fallback.before.end <= pair.before.source.line_seq().len()
    &&& fallback.after.start <= fallback.after.end <= pair.after.source.line_seq().len()
}

pub open spec fn fallbacks_fit(pair: SyntaxPair, fallbacks: Seq<LineFallback>) -> bool {
    forall|k: int| 0 <= k < fallbacks.len() ==> fallback_fits(pair, #[trigger] fallbacks[k])
}

/// Some link shares a row with the pair or crosses it.
pub open spec fn link_blocks(links: Seq<LineLink>, before: int, after: int) -> bool {
    exists|k: int|
        0 <= k < links.len() && !((#[trigger] links[k]).before < before && links[k].after < after)
            && !(links[k].before > before && links[k].after > after)
}

/// No two rows of the ranges with the same text could be linked as well.
pub open spec fn rows_exhausted(
    pair: SyntaxPair,
    before: Span,
    after: Span,
    links: Seq<LineLink>,
) -> bool {
    forall|i: int, j: int|
        before.has(i) && after.has(j) && pair.before.source.line_content(
            #[trigger] pair.before.source.line_seq()[i],
        ) == pair.after.source.line_content(#[trigger] pair.after.source.line_seq()[j])
            ==> link_blocks(links, i, j)
}

/// Terminator edits among the first rows of a gap, paired by offset.
pub open spec fn offset_edits(
    pair: SyntaxPair,
    before: int,
    after: int,
    count: int,
) -> Seq<LineLink>
    decreases count,
{
    if count <= 0 {
        Seq::empty()
    } else {
        let link = LineLink {
            before: (before + count - 1) as usize,
            after: (after + count - 1) as usize,
        };
        let earlier = offset_edits(pair, before, after, count - 1);
        if is_ending_edit(pair, link) {
            earlier.push(link)
        } else {
            earlier
        }
    }
}

/// Links of a gap between anchors: offsets are reliable only where both sides are as long.
pub open spec fn gap_links(pair: SyntaxPair, before: Span, after: Span) -> Seq<LineLink> {
    if before.end - before.start == after.end - after.start {
        offset_edits(pair, before.start as int, after.start as int, before.end - before.start)
    } else {
        Seq::empty()
    }
}

/// Old rows without a terminator, from one row to another.
pub open spec fn unended_before(
    pair: SyntaxPair,
    start: int,
    end: int,
    place: usize,
) -> Seq<LineFallback>
    decreases end - start,
{
    if end <= start {
        Seq::empty()
    } else {
        let earlier = unended_before(pair, start, end - 1, place);
        if pair.before.source.line_seq()[end - 1].ending == LineEnding::Missing {
            earlier.push(
                LineFallback {
                    before: Span { start: (end - 1) as usize, end: end as usize },
                    after: Span { start: place, end: place },
                },
            )
        } else {
            earlier
        }
    }
}

/// Current rows without a terminator, from one row to another.
pub open spec fn unended_after(
    pair: SyntaxPair,
    start: int,
    end: int,
    place: usize,
) -> Seq<LineFallback>
    decreases end - start,
{
    if end <= start {
        Seq::empty()
    } else {
        let earlier = unended_after(pair, start, end - 1, place);
        if pair.after.source.line_seq()[end - 1].ending == LineEnding::Missing {
            earlier.push(
                LineFallback {
                    before: Span { start: place, end: place },
                    after: Span { start: (end - 1) as usize, end: end as usize },
                },
            )
        } else {
            earlier
        }
    }
}

/// Rows of a gap whose terminator is missing and that no offset pairs.
pub open spec fn gap_missing(pair: SyntaxPair, before: Span, after: Span) -> Seq<LineFallback> {
    if before.end - before.start == after.end - after.start {
        Seq::empty()
    } else {
        unended_before(pair, before.start as int, before.end as int, after.end) + unended_after(
            pair,
            after.start as int,
            after.end as int,
            before.end,
        )
    }
}

/// The gap before an anchor, or after the last one.
pub open spec fn gap_before(
    rows: Span,
    anchors: Seq<OrderedMatch>,
    index: int,
    of_before: bool,
) -> Span {
    let at = |k: int| if of_before {
        anchors[k].before
    } else {
        anchors[k].after
    };
    Span {
        start: if index > 0 {
            (rows.start + at(index - 1) + 1) as usize
        } else {
            rows.start
        },
        end: if index < anchors.len() {
            (rows.start + at(index)) as usize
        } else {
            rows.end
        },
    }
}

/// Links up to an anchor: the gaps before it, and the anchors before it.
pub open spec fn links_to(
    pair: SyntaxPair,
    before: Span,
    after: Span,
    anchors: Seq<OrderedMatch>,
    count: int,
) -> Seq<LineLink>
    decreases count,
{
    if count <= 0 {
        Seq::empty()
    } else {
        (links_to(pair, before, after, anchors, count - 1) + gap_links(
            pair,
            gap_before(before, anchors, count - 1, true),
            gap_before(after, anchors, count - 1, false),
        )).push(anchor_link(before, after, anchors[count - 1]))
    }
}

/// Rows whose terminator is missing, in the gaps up to an anchor.
pub open spec fn missing_to(
    pair: SyntaxPair,
    before: Span,
    after: Span,
    anchors: Seq<OrderedMatch>,
    count: int,
) -> Seq<LineFallback>
    decreases count,
{
    if count <= 0 {
        Seq::empty()
    } else {
        missing_to(pair, before, after, anchors, count - 1) + gap_missing(
            pair,
            gap_before(before, anchors, count - 1, true),
            gap_before(after, anchors, count - 1, false),
        )
    }
}

/// Rows of two ranges matched by text, with the terminator edits and the missing terminators of
/// the gaps between the matches.
pub open spec fn matches_rows(
    pair: SyntaxPair,
    texts: RowTexts,
    before: Span,
    after: Span,
    anchors: Seq<OrderedMatch>,
    facts: PhysicalLineFacts,
) -> bool {
    let count = anchors.len() as int;
    &&& is_anchored_alignment(
        anchors,
        texts.before@.subrange(before.start as int, before.end as int),
        texts.after@.subrange(after.start as int, after.end as int),
    )
    &&& facts.links@ == links_to(pair, before, after, anchors, count) + gap_links(
        pair,
        gap_before(before, anchors, count, true),
        gap_before(after, anchors, count, false),
    )
    &&& facts.missing_terminators@ == missing_to(pair, before, after, anchors, count)
        + gap_missing(
        pair,
        gap_before(before, anchors, count, true),
        gap_before(after, anchors, count, false),
    )
}

/// The rows are matched by text around some choice of anchors.
pub open spec fn are_row_facts(
    pair: SyntaxPair,
    texts: RowTexts,
    before: Span,
    after: Span,
    facts: PhysicalLineFacts,
) -> bool {
    exists|anchors: Seq<OrderedMatch>| #[trigger]
        matches_rows(pair, texts, before, after, anchors, facts)
}

/// The links of two ranges whose rows are matched by text.
pub open spec fn are_row_links(
    pair: SyntaxPair,
    before: Span,
    after: Span,
    links: Seq<LineLink>,
) -> bool {
    exists|texts: RowTexts, facts: PhysicalLineFacts|
        texts.describes(pair.before.source, pair.after.source) && facts.links@ == links
            && #[trigger] are_row_facts(pair, texts, before, after, facts)
}

/// Every link joins rows of the two ranges.
pub open spec fn links_within(links: Seq<LineLink>, before: Span, after: Span) -> bool {
    forall|k: int|
        0 <= k < links.len() ==> before.has((#[trigger] links[k]).before as int) && after.has(
            links[k].after as int,
        )
}

impl PhysicalLineFacts {
    pub open spec fn ok(self, pair: SyntaxPair) -> bool {
        &&& rows_ascend(self.links@)
        &&& links_ok(pair, self.links@)
        &&& fallbacks_fit(pair, self.missing_terminators@)
    }

    /// Every link comes before the given rows.
    spec fn below(self, before: int, after: int) -> bool {
        forall|k: int|
            0 <= k < self.links@.len() ==> (#[trigger] self.links@[k]).before < before
                && self.links@[k].after < after
    }

    /// Record the rows between two anchors.
    ///
    /// Terminator edits pair by offset only in equal-length gaps; insertions or deletions make
    /// that offset unreliable.
    fn record_gap(&mut self, pair: &SyntaxPair, before: Span, after: Span)
        requires
            old(self).ok(*pair),
            old(self).below(before.start as int, after.start as int),
            before.start <= before.end <= pair.before.source.line_seq().len(),
            after.start <= after.end <= pair.after.source.line_seq().len(),
        ensures
            final(self).ok(*pair),
            final(self).below(before.end as int, after.end as int),
            final(self).links@ == old(self).links@ + gap_links(*pair, before, after),
            final(self).missing_terminators@ == old(self).missing_terminators@ + gap_missing(
                *pair,
                before,
                after,
            ),
            forall|k: int|
                old(self).links@.len() <= k < final(self).links@.len() ==> before.has(
                    (#[trigger] final(self).links@[k]).before as int,
                ) && after.has(final(self).links@[k].after as int),
            forall|link: LineLink| #[trigger]
                old(self).links@.contains(link) ==> final(self).links@.contains(link),
    {
        let ghost start = self.links@;
        let ghost missing = self.missing_terminators@;
        let before_len = before.end - before.start;
        let after_len = after.end - after.start;
        if before_len == after_len {
            let mut offset: usize = 0;
            while offset < before_len
                invariant
                    self.ok(*pair),
                    self.below(before.start + offset, after.start + offset),
                    offset <= before_len,
                    before_len == before.end - before.start,
                    before_len == after.end - after.start,
                    self.links@.len() >= start.len(),
                    self.links@.take(start.len() as int) == start,
                    self.links@ == start + offset_edits(
                        *pair,
                        before.start as int,
                        after.start as int,
                        offset as int,
                    ),
                    self.missing_terminators@ == missing,
                    forall|k: int|
                        start.len() <= k < self.links@.len() ==> before.has(
                            (#[trigger] self.links@[k]).before as int,
                        ) && after.has(self.links@[k].after as int),
                    before.end <= pair.before.source.line_seq().len(),
                    after.end <= pair.after.source.line_seq().len(),
                decreases before_len - offset,
            {
                let link = LineLink { before: before.start + offset, after: after.start + offset };
                let ghost earlier = self.links@;
                if !same_ending(pair, link) {
                    self.links.push(link);
                }
                assert(self.links@.take(start.len() as int) =~= earlier.take(start.len() as int));
                assert(self.links@ =~= start + offset_edits(
                    *pair,
                    before.start as int,
                    after.start as int,
                    offset + 1,
                ));
                offset += 1;
            }
            proof {
                assert(missing + gap_missing(*pair, before, after) =~= missing);
                assert forall|link: LineLink| #[trigger]
                    start.contains(link) implies self.links@.contains(link) by {
                    let k = choose|k: int| 0 <= k < start.len() && start[k] == link;
                    assert(self.links@.take(start.len() as int)[k] == self.links@[k]);
                }
            }
            return ;
        }
        let mut row = before.start;
        while row < before.end
            invariant
                self.ok(*pair),
                self.below(before.end as int, after.end as int),
                before.start <= row <= before.end,
                self.links@ == start,
                self.missing_terminators@ == missing + unended_before(
                    *pair,
                    before.start as int,
                    row as int,
                    after.end,
                ),
                before.end <= pair.before.source.line_seq().len(),
                after.end <= pair.after.source.line_seq().len(),
            decreases before.end - row,
        {
            if pair.before.source.lines()[row].ending == LineEnding::Missing {
                self.missing_terminators.push(
                    LineFallback {
                        before: Span { start: row, end: row + 1 },
                        after: Span { start: after.end, end: after.end },
                    },
                );
            }
            row += 1;
            assert(self.missing_terminators@ =~= missing + unended_before(
                *pair,
                before.start as int,
                row as int,
                after.end,
            ));
        }
        let ghost removed = self.missing_terminators@;
        let mut row = after.start;
        while row < after.end
            invariant
                self.ok(*pair),
                self.below(before.end as int, after.end as int),
                after.start <= row <= after.end,
                self.links@ == start,
                self.missing_terminators@ == removed + unended_after(
                    *pair,
                    after.start as int,
                    row as int,
                    before.end,
                ),
                before.end <= pair.before.source.line_seq().len(),
                after.end <= pair.after.source.line_seq().len(),
            decreases after.end - row,
        {
            if pair.after.source.lines()[row].ending == LineEnding::Missing {
                self.missing_terminators.push(
                    LineFallback {
                        before: Span { start: before.end, end: before.end },
                        after: Span { start: row, end: row + 1 },
                    },
                );
            }
            row += 1;
            assert(self.missing_terminators@ =~= removed + unended_after(
                *pair,
                after.start as int,
                row as int,
                before.end,
            ));
        }
        proof {
            assert(start + gap_links(*pair, before, after) =~= start);
            assert(self.missing_terminators@ =~= missing + gap_missing(*pair, before, after));
        }
    }
}

/// An anchor at its absolute rows.
pub open spec fn anchor_link(before: Span, after: Span, anchor: OrderedMatch) -> LineLink {
    LineLink {
        before: (before.start + anchor.before) as usize,
        after: (after.start + anchor.after) as usize,
    }
}

/// Align row ranges by text and record changes to their terminators.
/// Syntax anchors require a separate check that these matches respect scope ownership.
#[verifier::rlimit(60)]
#[verifier::spinoff_prover]
pub fn physical_line_correspondence_in(
    pair: &SyntaxPair,
    texts: &RowTexts,
    before: Span,
    after: Span,
) -> (facts: PhysicalLineFacts)
    requires
        texts.describes(pair.before.source, pair.after.source),
        before.start <= before.end <= pair.before.source.line_seq().len(),
        after.start <= after.end <= pair.after.source.line_seq().len(),
    ensures
        facts.ok(*pair),
        rows_exhausted(*pair, before, after, facts.links@),
        links_within(facts.links@, before, after),
        are_row_facts(*pair, *texts, before, after, facts),
{
    let left = vstd::slice::slice_subrange(texts.before.as_slice(), before.start, before.end);
    let right = vstd::slice::slice_subrange(texts.after.as_slice(), after.start, after.end);
    let anchors = ordered_matches(left, right);
    let mut facts = PhysicalLineFacts { links: Vec::new(), missing_terminators: Vec::new() };
    let mut before_start = before.start;
    let mut after_start = after.start;
    let mut index: usize = 0;
    while index < anchors.len()
        invariant
            texts.describes(pair.before.source, pair.after.source),
            before.start <= before.end <= pair.before.source.line_seq().len(),
            after.start <= after.end <= pair.after.source.line_seq().len(),
            left@ == texts.before@.subrange(before.start as int, before.end as int),
            right@ == texts.after@.subrange(after.start as int, after.end as int),
            is_alignment(anchors@, left@, right@),
            index <= anchors@.len(),
            facts.ok(*pair),
            links_within(facts.links@, before, after),
            facts.links@ == links_to(*pair, before, after, anchors@, index as int),
            facts.missing_terminators@ == missing_to(
                *pair,
                before,
                after,
                anchors@,
                index as int,
            ),
            before_start == gap_before(before, anchors@, index as int, true).start,
            after_start == gap_before(after, anchors@, index as int, false).start,
            forall|k: int|
                0 <= k < index ==> facts.links@.contains(
                    anchor_link(before, after, #[trigger] anchors@[k]),
                ),
            facts.below(before_start as int, after_start as int),
            before.start <= before_start <= before.end,
            after.start <= after_start <= after.end,
            index < anchors@.len() ==> before_start <= before.start + anchors@[index as int].before
                && after_start <= after.start + anchors@[index as int].after,
        decreases anchors@.len() - index,
    {
        let anchor = anchors[index];
        assert(anchors@[index as int] == anchor);
        assert(anchor.before < left@.len() && anchor.after < right@.len());
        let link = LineLink {
            before: before.start + anchor.before,
            after: after.start + anchor.after,
        };
        facts.record_gap(
            pair,
            Span { start: before_start, end: link.before },
            Span { start: after_start, end: link.after },
        );
        proof {
            assert(left@[anchor.before as int] == right@[anchor.after as int]);
            assert(texts.before@[link.before as int] == texts.after@[link.after as int]);
            assert(is_exact(*pair, link) || is_ending_edit(*pair, link));
            if index + 1 < anchors@.len() {
                assert(anchors@[index as int].before < anchors@[index + 1].before);
                assert(anchors@[index as int].after < anchors@[index + 1].after);
            }
        }
        let ghost earlier = facts.links@;
        facts.links.push(link);
        proof {
            assert(gap_before(before, anchors@, index as int, true) == (Span {
                start: before_start,
                end: link.before,
            }));
            assert(gap_before(after, anchors@, index as int, false) == (Span {
                start: after_start,
                end: link.after,
            }));
            assert(link == anchor_link(before, after, anchors@[index as int]));
            assert forall|k: int| 0 <= k < index + 1 implies facts.links@.contains(
                anchor_link(before, after, #[trigger] anchors@[k]),
            ) by {
                if k < index {
                    let l = choose|l: int|
                        0 <= l < earlier.len() && earlier[l] == anchor_link(
                            before,
                            after,
                            anchors@[k],
                        );
                    assert(facts.links@[l] == earlier[l]);
                } else {
                    assert(facts.links@[earlier.len() as int] == link);
                }
            }
        }
        before_start = link.before + 1;
        after_start = link.after + 1;
        index += 1;
    }
    facts.record_gap(
        pair,
        Span { start: before_start, end: before.end },
        Span { start: after_start, end: after.end },
    );
    proof {
        assert(gap_before(before, anchors@, index as int, true) == (Span {
            start: before_start,
            end: before.end,
        }));
        assert(gap_before(after, anchors@, index as int, false) == (Span {
            start: after_start,
            end: after.end,
        }));
        assert(matches_rows(*pair, *texts, before, after, anchors@, facts));
        assert(texts.before.len() <= usize::MAX && texts.after.len() <= usize::MAX);
        assert forall|i: int, j: int|
            before.has(i) && after.has(j) && pair.before.source.line_content(
                #[trigger] pair.before.source.line_seq()[i],
            ) == pair.after.source.line_content(
                #[trigger] pair.after.source.line_seq()[j],
            ) implies link_blocks(facts.links@, i, j) by {
            let x = i - before.start;
            let y = j - after.start;
            assert(texts.before@[i] == texts.after@[j]);
            assert(left@[x] == right@[y]);
            law_anchored_alignment_is_maximal(anchors@, left@, right@, x, y);
            let k = choose|k: int|
                0 <= k < anchors@.len() && !((#[trigger] anchors@[k]).before < x
                    && anchors@[k].after < y) && !(anchors@[k].before > x && anchors@[k].after > y);
            let link = anchor_link(before, after, anchors@[k]);
            assert(facts.links@.contains(link));
            let l = choose|l: int| 0 <= l < facts.links@.len() && facts.links@[l] == link;
            assert(anchors@[k].before < left@.len() && anchors@[k].after < right@.len());
            assert(facts.links@[l].before == before.start + anchors@[k].before);
            assert(facts.links@[l].after == after.start + anchors@[k].after);
        }
    }
    facts
}

/// Pair rows within a matched node pair, including rows with changed terminators.
pub fn local_line_links(pair: &SyntaxPair, before: NodeId, after: NodeId) -> (links: Vec<LineLink>)
    requires
        pair.wf(),
        pair.before.has_node(before as int),
        pair.after.has_node(after as int),
    ensures
        rows_ascend(links@),
        links_ok(*pair, links@),
        links_within(
            links@,
            row_span(pair.before, before as int),
            row_span(pair.after, after as int),
        ),
        rows_exhausted(
            *pair,
            row_span(pair.before, before as int),
            row_span(pair.after, after as int),
            links@,
        ),
        are_row_links(
            *pair,
            row_span(pair.before, before as int),
            row_span(pair.after, after as int),
            links@,
        ),
{
    let texts = RowTexts::new(&pair.before.source, &pair.after.source);
    let facts = physical_line_correspondence_in(
        pair,
        &texts,
        zero_based_lines(&pair.before, before),
        zero_based_lines(&pair.after, after),
    );
    assert(are_row_facts(
        *pair,
        texts,
        row_span(pair.before, before as int),
        row_span(pair.after, after as int),
        facts,
    ));
    facts.links
}

/// First rows of a matched unit.
pub open spec fn first_rows(pair: SyntaxPair, unit: MatchedUnit) -> LineLink {
    LineLink {
        before: row_span(pair.before, unit.before as int).start,
        after: row_span(pair.after, unit.after as int).start,
    }
}

/// The unit holds rows on both sides, and its first rows are equal and follow the link.
pub open spec fn gives_link(pair: SyntaxPair, last: Option<LineLink>, unit: MatchedUnit) -> bool {
    let link = first_rows(pair, unit);
    &&& !row_span(pair.before, unit.before as int).empty()
    &&& !row_span(pair.after, unit.after as int).empty()
    &&& is_exact(pair, link)
    &&& last matches Some(last) ==> last.before < link.before && last.after < link.after
}

/// First rows of the matched units that follow one another and are equal.
pub open spec fn unit_links(pair: SyntaxPair, units: Seq<UnitEdit>, count: int) -> Seq<LineLink>
    decreases count,
{
    if count <= 0 {
        Seq::empty()
    } else {
        let earlier = unit_links(pair, units, count - 1);
        let last = if earlier.len() > 0 {
            Some(earlier.last())
        } else {
            None
        };
        match units[count - 1] {
            UnitEdit::Matched(unit) if gives_link(pair, last, unit) => earlier.push(
                first_rows(pair, unit),
            ),
            _ => earlier,
        }
    }
}

/// Reuse line-tree matches as physical anchors without running another alignment.
pub fn line_links_from_tree_matches(pair: &SyntaxPair, tree: &TreeDiff) -> (links: Vec<LineLink>)
    requires
        pair.wf(),
        tree.fits(pair.before.nodes@.len() as int, pair.after.nodes@.len() as int),
    ensures
        rows_ascend(links@),
        forall|k: int|
            0 <= k < links@.len() ==> link_fits(*pair, #[trigger] links@[k]) && is_exact(
                *pair,
                links@[k],
            ),
        links@ == unit_links(*pair, tree.units@, tree.units@.len() as int),
{
    let mut links: Vec<LineLink> = Vec::new();
    let mut index: usize = 0;
    while index < tree.units.len()
        invariant
            links@ == unit_links(*pair, tree.units@, index as int),
            pair.wf(),
            tree.fits(pair.before.nodes@.len() as int, pair.after.nodes@.len() as int),
            index <= tree.units@.len(),
            rows_ascend(links@),
            forall|k: int|
                0 <= k < links@.len() ==> link_fits(*pair, #[trigger] links@[k]) && is_exact(
                    *pair,
                    links@[k],
                ),
        decreases tree.units@.len() - index,
    {
        assert(edit_fits(
            tree.units@[index as int],
            pair.before.nodes@.len() as int,
            pair.after.nodes@.len() as int,
            tree.leaves.links@.len() as int,
            tree.composites@.len() as int,
        ));
        if let UnitEdit::Matched(unit) = tree.units[index] {
            let before = zero_based_lines(&pair.before, unit.before);
            let after = zero_based_lines(&pair.after, unit.after);
            let follows = links.len() == 0 || (links[links.len() - 1].before < before.start
                && links[links.len() - 1].after < after.start);
            if follows && !before.is_empty() && !after.is_empty() {
                let link = LineLink { before: before.start, after: after.start };
                if same_ending(pair, link) && pair.before.source.same_text(
                    link.before,
                    &pair.after.source,
                    link.after,
                ) {
                    proof {
                        assert forall|k: int| 0 <= k < links@.len() implies (
                        #[trigger] links@[k]).before < link.before && links@[k].after
                            < link.after by {
                            if k < links@.len() - 1 {
                                assert(links@[k].before < links@[links@.len() - 1].before);
                            }
                        }
                    }
                    links.push(link);
                }
            }
        }
        index += 1;
    }
    links
}

/// ASCII punctuation.
pub open spec fn is_punctuation(c: char) -> bool {
    let code = c as u32;
    ||| 0x21 <= code <= 0x2f
    ||| 0x3a <= code <= 0x40
    ||| 0x5b <= code <= 0x60
    ||| 0x7b <= code <= 0x7e
}

/// The trimmed text holds something other than punctuation.
pub open spec fn tells_apart(text: Seq<char>) -> bool {
    exists|i: int|
        0 <= i < text.len() && !is_punctuation(#[trigger] text[i]) && trimmed_has(text, i)
}

/// Reject ambiguous blank and punctuation-only anchors outside matched containers.
///
/// White space between punctuation keeps a row from being punctuation only.
fn line_can_anchor_without_owner(text: &str) -> (result: bool)
    ensures
        result == tells_apart(text@),
{
    let chars = chars_of(text);
    let mut first: usize = 0;
    while first < chars.len() && white(chars[first])
        invariant
            first <= chars@.len(),
            chars@ == text@,
            forall|k: int| 0 <= k < first ==> is_white(#[trigger] text@[k]),
        decreases chars@.len() - first,
    {
        first += 1;
    }
    let mut end: usize = chars.len();
    while end > first && white(chars[end - 1])
        invariant
            first <= end <= chars@.len(),
            chars@ == text@,
            forall|k: int| end <= k < text@.len() ==> is_white(#[trigger] text@[k]),
        decreases end,
    {
        end -= 1;
    }
    let mut index = first;
    while index < end
        invariant
            first <= index <= end <= chars@.len(),
            chars@ == text@,
            forall|k: int| 0 <= k < first ==> is_white(#[trigger] text@[k]),
            forall|k: int| end <= k < text@.len() ==> is_white(#[trigger] text@[k]),
            first < end ==> !is_white(text@[first as int]) && !is_white(text@[end - 1]),
            forall|k: int| first <= k < index ==> is_punctuation(#[trigger] text@[k]),
        decreases end - index,
    {
        let code = chars[index] as u32;
        let punctuation = (0x21 <= code && code <= 0x2f) || (0x3a <= code && code <= 0x40) || (0x5b
            <= code && code <= 0x60) || (0x7b <= code && code <= 0x7e);
        if !punctuation {
            proof {
                assert(text@[first as int] == text@[first as int]);
                assert(trimmed_has(text@, index as int)) by {
                    assert(!is_white(text@[first as int]));
                    assert(!is_white(text@[end - 1]));
                }
            }
            return true;
        }
        index += 1;
    }
    proof {
        assert forall|i: int|
            0 <= i < text@.len() && !is_punctuation(#[trigger] text@[i]) implies !trimmed_has(
            text@,
            i,
        ) by {
            if trimmed_has(text@, i) {
                let (low, high) = choose|low: int, high: int|
                    0 <= low <= i <= high < text@.len() && !is_white(#[trigger] text@[low])
                        && !is_white(#[trigger] text@[high]);
                assert(first <= low && high < end);
            }
        }
    }
    false
}

/// The position survives trimming: text other than white space lies at or on both sides of it.
pub open spec fn trimmed_has(text: Seq<char>, i: int) -> bool {
    exists|low: int, high: int|
        0 <= low <= i <= high < text.len() && !is_white(#[trigger] text[low]) && !is_white(
            #[trigger] text[high],
        )
}

/// After rows by before row.
pub struct RowPairs {
    pub partners: Partners,
}

/// Partners ascend with their rows.
pub open spec fn partners_ascend(partner: Seq<Option<usize>>) -> bool {
    forall|i: int, j: int|
        0 <= i < j < partner.len() && (#[trigger] partner[i]) is Some && (
        #[trigger] partner[j]) is Some ==> partner[i]->0 < partner[j]->0
}

impl RowPairs {
    /// One-to-one, ascending, and every pair unchanged or a terminator edit.
    pub open spec fn ok(self, pair: SyntaxPair) -> bool {
        &&& self.partners.wf(
            pair.before.source.line_seq().len() as int,
            pair.after.source.line_seq().len() as int,
        )
        &&& partners_ascend(self.partners.before@)
        &&& forall|i: int|
            0 <= i < self.partners.before@.len() ==> ((
            #[trigger] self.partners.before@[i]) matches Some(j) ==> is_exact(
                pair,
                LineLink { before: i as usize, after: j },
            ) || is_ending_edit(pair, LineLink { before: i as usize, after: j }))
    }

    /// Adding the link would cross no other.
    pub open spec fn admits(self, link: LineLink) -> bool {
        &&& forall|i: int|
            0 <= i < link.before ==> ((#[trigger] self.partners.before@[i]) matches Some(j) ==> j
                < link.after)
        &&& forall|i: int|
            link.before < i < self.partners.before@.len() ==> ((
            #[trigger] self.partners.before@[i]) matches Some(j) ==> j > link.after)
    }

    /// Add a link that crosses no other.
    fn add_link(&mut self, pair: &SyntaxPair, link: LineLink)
        requires
            old(self).ok(*pair),
            link_fits(*pair, link),
            is_exact(*pair, link) || is_ending_edit(*pair, link),
            old(self).admits(link),
            old(self).partners.before@[link.before as int] is None,
        ensures
            final(self).ok(*pair),
            final(self).partners.before@ == old(self).partners.before@.update(
                link.before as int,
                Some(link.after),
            ),
    {
        let ghost earlier = *self;
        proof {
            if self.partners.after@[link.after as int] is Some {
                let i = self.partners.after@[link.after as int]->0;
                assert(self.partners.before@[i as int] == Some(link.after));
            }
        }
        let claimed = self.partners.claim(link.before, link.after);
        assert(claimed);
    }

    /// Whether a link crosses no other and joins two free rows.
    fn line_link_preserves_order(&self, pair: &SyntaxPair, link: LineLink) -> (fits: bool)
        requires
            self.ok(*pair),
            link_fits(*pair, link),
        ensures
            fits ==> self.admits(link) && self.partners.before@[link.before as int] is None,
            self.partners.before@[link.before as int] is None && self.admits(link) ==> fits,
    {
        if self.partners.before[link.before].is_some() {
            return false;
        }
        let mut low = link.before;
        while low > 0 && self.partners.before[low - 1].is_none()
            invariant
                low <= link.before,
                link.before < self.partners.before@.len(),
                forall|i: int| low <= i <= link.before ==> (#[trigger] self.partners.before@[i]) is None,
            decreases low,
        {
            low -= 1;
        }
        if low > 0 {
            if let Some(after) = self.partners.before[low - 1] {
                if after >= link.after {
                    assert(self.partners.before@[low - 1] == Some(after));
                    return false;
                }
            }
        }
        assert(link.before < self.partners.before.len());
        let mut high = link.before + 1;
        while high < self.partners.before.len() && self.partners.before[high].is_none()
            invariant
                link.before < high <= self.partners.before@.len(),
                forall|i: int| link.before <= i < high ==> (#[trigger] self.partners.before@[i]) is None,
            decreases self.partners.before@.len() - high,
        {
            high += 1;
        }
        if high < self.partners.before.len() {
            if let Some(after) = self.partners.before[high] {
                if after <= link.after {
                    assert(self.partners.before@[high as int] == Some(after));
                    return false;
                }
            }
        }
        proof {
            assert forall|i: int| 0 <= i < link.before implies ((
            #[trigger] self.partners.before@[i]) matches Some(j) ==> j < link.after) by {
                if self.partners.before@[i] is Some {
                    assert(i < low);
                    if i < low - 1 {
                        assert(self.partners.before@[low - 1] is Some);
                    }
                }
            }
            assert forall|i: int| link.before < i < self.partners.before@.len() implies ((
            #[trigger] self.partners.before@[i]) matches Some(j) ==> j > link.after) by {
                if self.partners.before@[i] is Some {
                    assert(i >= high);
                    if i > high {
                        assert(self.partners.before@[high as int] is Some);
                    }
                }
            }
        }
        true
    }

    /// Every pair comes before the given rows.
    spec fn below(self, before: int, after: int) -> bool {
        forall|i: int|
            0 <= i < self.partners.before@.len() ==> ((
            #[trigger] self.partners.before@[i]) matches Some(j) ==> i < before && j < after)
    }

    /// The pairs as ascending links, unchanged rows or terminator edits.
    pub fn links(&self, pair: &SyntaxPair, exact: bool) -> (links: Vec<LineLink>)
        requires
            self.ok(*pair),
        ensures
            rows_ascend(links@),
            forall|k: int|
                0 <= k < links@.len() ==> link_fits(*pair, #[trigger] links@[k])
                    && self.partners.before@[links@[k].before as int] == Some(links@[k].after)
                    && is_ending_edit(*pair, links@[k]) == !exact && (exact ==> is_exact(
                    *pair,
                    links@[k],
                )),
            forall|i: int|
                0 <= i < self.partners.before@.len() ==> ((
                #[trigger] self.partners.before@[i]) matches Some(j) ==> (is_ending_edit(
                    *pair,
                    LineLink { before: i as usize, after: j },
                ) == !exact ==> links@.contains(LineLink { before: i as usize, after: j }))),
    {
        let mut links: Vec<LineLink> = Vec::new();
        let mut row: usize = 0;
        assert(self.partners.before.len() <= usize::MAX);
        while row < self.partners.before.len()
            invariant
                self.ok(*pair),
                row <= self.partners.before@.len() <= usize::MAX,
                rows_ascend(links@),
                forall|k: int|
                    0 <= k < links@.len() ==> link_fits(*pair, #[trigger] links@[k])
                        && links@[k].before < row
                        && self.partners.before@[links@[k].before as int] == Some(links@[k].after)
                        && is_ending_edit(*pair, links@[k]) == !exact && (exact ==> is_exact(
                        *pair,
                        links@[k],
                    )),
                forall|i: int|
                    0 <= i < row ==> ((#[trigger] self.partners.before@[i]) matches Some(j) ==> (
                    is_ending_edit(*pair, LineLink { before: i as usize, after: j }) == !exact
                        ==> links@.contains(LineLink { before: i as usize, after: j }))),
            decreases self.partners.before@.len() - row,
        {
            let ghost earlier = links@;
            if let Some(after) = self.partners.before[row] {
                let link = LineLink { before: row, after };
                assert(self.partners.before@[row as int] == Some(after));
                if same_ending(pair, link) == exact {
                    proof {
                        assert forall|k: int| 0 <= k < links@.len() implies (
                        #[trigger] links@[k]).after < after by {
                            assert(self.partners.before@[links@[k].before as int] is Some);
                        }
                    }
                    links.push(link);
                    assert(links@[earlier.len() as int] == link);
                }
            }
            proof {
                assert forall|i: int| 0 <= i < row + 1 implies ((
                #[trigger] self.partners.before@[i]) matches Some(j) ==> (is_ending_edit(
                    *pair,
                    LineLink { before: i as usize, after: j },
                ) == !exact ==> links@.contains(LineLink { before: i as usize, after: j }))) by {
                    if i < row && self.partners.before@[i] is Some {
                        let link = LineLink {
                            before: i as usize,
                            after: self.partners.before@[i]->0,
                        };
                        if earlier.contains(link) {
                            let at = choose|at: int|
                                0 <= at < earlier.len() && earlier[at] == link;
                            assert(links@[at] == link);
                        }
                    }
                }
            }
            row += 1;
        }
        links
    }
}

/// After rows that moved content pairs with each before row.
pub struct MovedRows {
    pub rows: Vec<Vec<usize>>,
}

/// The rows stand at the same offset of two spans.
pub open spec fn side_by_side(before: Span, after: Span, link: LineLink) -> bool {
    &&& before.start <= link.before < before.end
    &&& after.start <= link.after < after.end
    &&& link.before - before.start == link.after - after.start
}

/// The rows belong to an exact leaf that left its place and fills its rows.
pub open spec fn leaf_carries(pair: SyntaxPair, leaf: LeafLink, link: LineLink) -> bool {
    &&& leaf.relation == LeafRelation::Exact
    &&& leaf.placement == Placement::Reordered
    &&& owns_rows(pair.before, leaf.before as int)
    &&& owns_rows(pair.after, leaf.after as int)
    &&& side_by_side(
        row_span(pair.before, leaf.before as int),
        row_span(pair.after, leaf.after as int),
        link,
    )
    &&& link.before != link.after
}

/// The rows belong to a subtree that changed owners.
pub open spec fn node_carries(pair: SyntaxPair, node: RelocatedNode, link: LineLink) -> bool {
    side_by_side(
        row_span(pair.before, node.before as int),
        row_span(pair.after, node.after as int),
        link,
    )
}

/// One of the first relocated subtrees or leaves carries the rows along.
pub open spec fn carried_by(
    pair: SyntaxPair,
    tree: TreeDiff,
    nodes: int,
    leaves: int,
    link: LineLink,
) -> bool {
    ||| exists|k: int| 0 <= k < nodes && node_carries(pair, #[trigger] tree.relocations@[k], link)
    ||| exists|k: int| 0 <= k < leaves && leaf_carries(pair, #[trigger] tree.leaves.links@[k], link)
}

/// Moved content carries the rows along.
pub open spec fn is_carried(pair: SyntaxPair, tree: TreeDiff, link: LineLink) -> bool {
    carried_by(
        pair,
        tree,
        tree.relocations@.len() as int,
        tree.leaves.links@.len() as int,
        link,
    )
}

impl MovedRows {
    /// Moved content pairs the two rows.
    spec fn holds(self, link: LineLink) -> bool {
        link.before < self.rows@.len() && self.rows@[link.before as int]@.contains(link.after)
    }

    /// Exactly the carried rows are listed.
    spec fn lists(self, pair: SyntaxPair, tree: TreeDiff) -> bool {
        forall|link: LineLink| #[trigger] self.holds(link) <==> is_carried(pair, tree, link)
    }

    /// Whether moved content pairs the two rows.
    fn has(&self, link: LineLink) -> (found: bool)
        ensures
            found == self.holds(link),
    {
        if link.before >= self.rows.len() {
            return false;
        }
        let list = &self.rows[link.before];
        let mut index: usize = 0;
        while index < list.len()
            invariant
                index <= list@.len(),
                list@ == self.rows@[link.before as int]@,
                link.before < self.rows@.len(),
                forall|k: int| 0 <= k < index ==> list@[k] != link.after,
            decreases list@.len() - index,
        {
            if list[index] == link.after {
                assert(list@[index as int] == link.after);
                return true;
            }
            index += 1;
        }
        false
    }

    /// Pair the rows of two spans by offset.
    fn add_rows(&mut self, before: Span, after: Span, skip_unmoved: bool)
        requires
            before.end <= old(self).rows@.len(),
        ensures
            final(self).rows@.len() == old(self).rows@.len(),
            forall|link: LineLink| #[trigger]
                final(self).holds(link) <==> old(self).holds(link) || side_by_side(
                    before,
                    after,
                    link,
                ) && (!skip_unmoved || link.before != link.after),
    {
        let mut left = before.start;
        let mut right = after.start;
        while left < before.end && right < after.end
            invariant
                before.start <= left,
                after.start <= right,
                left - before.start == right - after.start,
                before.end <= self.rows@.len(),
                self.rows@.len() == old(self).rows@.len(),
                forall|link: LineLink| #[trigger]
                    self.holds(link) <==> old(self).holds(link) || side_by_side(
                        before,
                        after,
                        link,
                    ) && link.before < left && (!skip_unmoved || link.before != link.after),
            decreases before.end - left,
        {
            let ghost earlier = *self;
            if !skip_unmoved || left != right {
                self.rows[left].push(right);
            }
            proof {
                assert forall|link: LineLink| #[trigger]
                    self.holds(link) <==> old(self).holds(link) || side_by_side(
                        before,
                        after,
                        link,
                    ) && link.before < left + 1 && (!skip_unmoved || link.before != link.after) by {
                    assert(earlier.holds(link) <==> old(self).holds(link) || side_by_side(
                        before,
                        after,
                        link,
                    ) && link.before < left && (!skip_unmoved || link.before != link.after));
                    if link.before == left {
                        let row = self.rows@[left as int]@;
                        let previous = earlier.rows@[left as int]@;
                        if !skip_unmoved || left != right {
                            assert(row =~= previous.push(right));
                            assert(row[previous.len() as int] == right);
                            if previous.contains(link.after) {
                                let k = choose|k: int|
                                    0 <= k < previous.len() && previous[k] == link.after;
                                assert(row[k] == link.after);
                            }
                            if row.contains(link.after) {
                                let k = choose|k: int| 0 <= k < row.len() && row[k] == link.after;
                                if k < previous.len() {
                                    assert(previous[k] == link.after);
                                }
                            }
                        }
                    } else {
                        assert(link.before < self.rows@.len() ==> self.rows@[link.before as int]
                            == earlier.rows@[link.before as int]);
                    }
                }
            }
            left += 1;
            right += 1;
        }
    }
}

/// Collect moved rows that must not become unchanged line anchors.
fn semantically_reordered_line_links(pair: &SyntaxPair, tree: &TreeDiff) -> (moved: MovedRows)
    requires
        pair.wf(),
        tree.fits(pair.before.nodes@.len() as int, pair.after.nodes@.len() as int),
    ensures
        moved.lists(*pair, *tree),
{
    let mut moved = MovedRows { rows: Vec::new() };
    let mut fill: usize = 0;
    while fill < pair.before.source.line_count()
        invariant
            fill <= pair.before.source.line_seq().len(),
            moved.rows@.len() == fill,
            forall|k: int| 0 <= k < fill ==> (#[trigger] moved.rows@[k])@.len() == 0,
        decreases pair.before.source.line_seq().len() - fill,
    {
        moved.rows.push(Vec::new());
        fill += 1;
    }
    let mut index: usize = 0;
    while index < tree.relocations.len()
        invariant
            tree.fits(pair.before.nodes@.len() as int, pair.after.nodes@.len() as int),
            index <= tree.relocations@.len(),
            moved.rows@.len() == pair.before.source.line_seq().len(),
            forall|link: LineLink| #[trigger]
                moved.holds(link) <==> carried_by(*pair, *tree, index as int, 0, link),
        decreases tree.relocations@.len() - index,
    {
        let node = tree.relocations[index];
        assert(tree.relocations@[index as int] == node);
        let ghost earlier = moved;
        moved.add_rows(
            zero_based_lines(&pair.before, node.before),
            zero_based_lines(&pair.after, node.after),
            false,
        );
        proof {
            assert forall|link: LineLink| #[trigger]
                moved.holds(link) <==> carried_by(*pair, *tree, index + 1, 0, link) by {
                assert(earlier.holds(link) <==> carried_by(*pair, *tree, index as int, 0, link));
                assert(moved.holds(link) <==> earlier.holds(link) || node_carries(
                    *pair,
                    tree.relocations@[index as int],
                    link,
                ));
            }
        }
        index += 1;
    }
    let ghost nodes = tree.relocations@.len() as int;
    let mut leaf: usize = 0;
    while leaf < tree.leaves.links.len()
        invariant
            tree.fits(pair.before.nodes@.len() as int, pair.after.nodes@.len() as int),
            leaf <= tree.leaves.links@.len(),
            moved.rows@.len() == pair.before.source.line_seq().len(),
            nodes == tree.relocations@.len(),
            forall|link: LineLink| #[trigger]
                moved.holds(link) <==> carried_by(*pair, *tree, nodes, leaf as int, link),
        decreases tree.leaves.links@.len() - leaf,
    {
        let link = tree.leaves.links[leaf];
        assert(tree.leaves.links@[leaf as int] == link);
        let ghost earlier = moved;
        if link.relation == LeafRelation::Exact && link.placement == Placement::Reordered
            && node_owns_complete_lines(&pair.before, link.before) && node_owns_complete_lines(
            &pair.after,
            link.after,
        ) {
            moved.add_rows(
                zero_based_lines(&pair.before, link.before),
                zero_based_lines(&pair.after, link.after),
                true,
            );
        }
        proof {
            assert forall|rows: LineLink| #[trigger]
                moved.holds(rows) <==> carried_by(*pair, *tree, nodes, leaf + 1, rows) by {
                assert(earlier.holds(rows) <==> carried_by(
                    *pair,
                    *tree,
                    nodes,
                    leaf as int,
                    rows,
                ));
                assert(moved.holds(rows) <==> earlier.holds(rows) || leaf_carries(
                    *pair,
                    tree.leaves.links@[leaf as int],
                    rows,
                ));
            }
        }
        leaf += 1;
    }
    moved
}

/// The text of a row tells it apart without its owners.
pub open spec fn row_tells(source: Source, row: int) -> bool {
    let bytes = source.line_seq()[row].content_bytes;
    on_boundaries(source.data(), bytes) && tells_apart(range_chars(source.data(), bytes))
}

/// The node is an owner of a row, named by its after partner.
pub open spec fn is_row_owner(proofs: ScopeProof, before: bool, row: int, owner: usize) -> bool {
    if before {
        proofs.reaches(row, owner)
    } else {
        proofs.after_lines@[row]@.contains(owner)
    }
}

/// A row may anchor: its owners are partners in place, and one of them is not the root or its
/// text tells enough.
pub open spec fn may_anchor(
    pair: SyntaxPair,
    proofs: ScopeProof,
    before: bool,
    row: int,
) -> bool {
    &&& if before {
        proofs.before_lines@[row]@.len() > 0 && proofs.maps(row, true)
    } else {
        proofs.after_lines@[row]@.len() > 0 && proofs.is_steady(row)
    }
    &&& (exists|owner: usize| #[trigger]
        is_row_owner(proofs, before, row, owner) && owner != pair.after.root) || row_tells(
        if before {
            pair.before.source
        } else {
            pair.after.source
        },
        row,
    )
}

/// Two rows that may anchor have the same text and the same owners.
pub open spec fn is_anchor(pair: SyntaxPair, proofs: ScopeProof, link: LineLink) -> bool {
    &&& link_fits(pair, link)
    &&& pair.before.source.line_content(before_row(pair, link))
        == pair.after.source.line_content(after_row(pair, link))
    &&& may_anchor(pair, proofs, true, link.before as int)
    &&& may_anchor(pair, proofs, false, link.after as int)
    &&& proofs.owners_meet(link.before as int, link.after as int)
}

/// Rows with their text and owners as one key.
struct KeyedRows {
    rows: Vec<usize>,
    keys: Vec<Vec<usize>>,
}

/// A key starts with the text of its row; the owners follow, ascending.
spec fn is_key(
    proofs: ScopeProof,
    before: bool,
    texts: Seq<usize>,
    row: int,
    key: Seq<usize>,
) -> bool {
    &&& key.len() >= 1
    &&& key[0] == texts[row]
    &&& ascending(key.skip(1))
    &&& forall|owner: usize| #[trigger]
        key.skip(1).contains(owner) <==> is_row_owner(proofs, before, row, owner)
}

impl KeyedRows {
    /// The rows below a bound that may anchor, ascending, with their keys.
    spec fn describes(
        self,
        pair: SyntaxPair,
        proofs: ScopeProof,
        before: bool,
        texts: Seq<usize>,
        end: int,
    ) -> bool {
        &&& ascending(self.rows@)
        &&& self.keys@.len() == self.rows@.len()
        &&& forall|k: int|
            0 <= k < self.rows@.len() ==> (#[trigger] self.rows@[k]) < end && may_anchor(
                pair,
                proofs,
                before,
                self.rows@[k] as int,
            ) && is_key(proofs, before, texts, self.rows@[k] as int, self.keys@[k]@)
        &&& forall|row: int|
            0 <= row < end && #[trigger] may_anchor(pair, proofs, before, row)
                ==> self.rows@.contains(row as usize)
    }
}

/// Whether some owner is not the root, or the row tells enough alone.
fn row_can_anchor(source: &Source, row: usize, scopes: &Vec<usize>, root: NodeId) -> (result: bool)
    requires
        row < source.line_seq().len(),
    ensures
        result == ((exists|k: int| 0 <= k < scopes@.len() && #[trigger] scopes@[k] != root)
            || row_tells(*source, row as int)),
{
    let mut index: usize = 0;
    while index < scopes.len()
        invariant
            index <= scopes@.len(),
            forall|k: int| 0 <= k < index ==> scopes@[k] == root,
        decreases scopes@.len() - index,
    {
        if scopes[index] != root {
            assert(scopes@[index as int] != root);
            return true;
        }
        index += 1;
    }
    match row_text(source, row) {
        Some(text) => {
            proof {
                encode_utf8_decode_utf8(text@);
            }
            line_can_anchor_without_owner(text)
        },
        None => false,
    }
}

/// Rows that may anchor, with their text and their owners in terms of the after revision.
fn keyed_rows(
    pair: &SyntaxPair,
    texts: &RowTexts,
    proofs: &ScopeProof,
    before: bool,
) -> (keyed: KeyedRows)
    requires
        pair.wf(),
        texts.describes(pair.before.source, pair.after.source),
        proofs.fits(*pair),
    ensures
        before ==> keyed.describes(
            *pair,
            *proofs,
            true,
            texts.before@,
            texts.before@.len() as int,
        ),
        !before ==> keyed.describes(
            *pair,
            *proofs,
            false,
            texts.after@,
            texts.after@.len() as int,
        ),
{
    let source = if before {
        &pair.before.source
    } else {
        &pair.after.source
    };
    let ids = if before {
        &texts.before
    } else {
        &texts.after
    };
    let mut keyed = KeyedRows { rows: Vec::new(), keys: Vec::new() };
    let mut row: usize = 0;
    while row < ids.len()
        invariant
            proofs.fits(*pair),
            texts.describes(pair.before.source, pair.after.source),
            ids@ == (if before {
                texts.before@
            } else {
                texts.after@
            }),
            *source == (if before {
                pair.before.source
            } else {
                pair.after.source
            }),
            row <= ids@.len(),
            keyed.describes(*pair, *proofs, before, ids@, row as int),
        decreases ids@.len() - row,
    {
        let scopes = if before {
            proofs.stable_before_line_scopes(row)
        } else {
            proofs.stable_after_line_scopes(row)
        };
        let ghost earlier = keyed;
        if let Some(scopes) = scopes {
            proof {
                assert(ascending(scopes@));
                assert forall|owner: usize| #[trigger]
                    scopes@.contains(owner) <==> is_row_owner(
                        *proofs,
                        before,
                        row as int,
                        owner,
                    ) by {}
                lemma_owner_found(*proofs, before, row as int, scopes@, pair.after.root);
            }
            if row_can_anchor(source, row, &scopes, pair.after.root) {
                let mut key: Vec<usize> = Vec::new();
                key.push(ids[row]);
                let mut index: usize = 0;
                while index < scopes.len()
                    invariant
                        index <= scopes@.len(),
                        key@.len() == index + 1,
                        key@[0] == ids@[row as int],
                        key@.skip(1) == scopes@.take(index as int),
                    decreases scopes@.len() - index,
                {
                    key.push(scopes[index]);
                    assert(key@.skip(1) =~= scopes@.take(index + 1));
                    index += 1;
                }
                assert(scopes@.take(index as int) =~= scopes@);
                keyed.rows.push(row);
                keyed.keys.push(key);
                assert(is_key(*proofs, before, ids@, row as int, key@));
                assert(may_anchor(*pair, *proofs, before, row as int));
            }
        }
        proof {
            assert forall|other: int|
                0 <= other < row + 1 && #[trigger] may_anchor(
                    *pair,
                    *proofs,
                    before,
                    other,
                ) implies keyed.rows@.contains(other as usize) by {
                if other < row {
                    assert(earlier.rows@.contains(other as usize));
                    let k = choose|k: int|
                        0 <= k < earlier.rows@.len() && earlier.rows@[k] == other as usize;
                    assert(keyed.rows@[k] == other as usize);
                } else {
                    assert(keyed.rows@[earlier.rows@.len() as int] == other as usize);
                }
            }
        }
        row += 1;
    }
    keyed
}

/// An owner other than the root stands in the list exactly where the row has one.
proof fn lemma_owner_found(
    proofs: ScopeProof,
    before: bool,
    row: int,
    scopes: Seq<usize>,
    root: NodeId,
)
    requires
        forall|owner: usize| #[trigger]
            scopes.contains(owner) <==> is_row_owner(proofs, before, row, owner),
    ensures
        (exists|k: int| 0 <= k < scopes.len() && #[trigger] scopes[k] != root) <==> (exists|
            owner: usize,
        | #[trigger] is_row_owner(proofs, before, row, owner) && owner != root),
{
    if exists|k: int| 0 <= k < scopes.len() && #[trigger] scopes[k] != root {
        let k = choose|k: int| 0 <= k < scopes.len() && #[trigger] scopes[k] != root;
        assert(scopes.contains(scopes[k]));
        assert(is_row_owner(proofs, before, row, scopes[k]));
    }
    if exists|owner: usize| #[trigger]
        is_row_owner(proofs, before, row, owner) && owner != root {
        let owner = choose|owner: usize| #[trigger]
            is_row_owner(proofs, before, row, owner) && owner != root;
        assert(scopes.contains(owner));
        let k = choose|k: int| 0 <= k < scopes.len() && scopes[k] == owner;
        assert(scopes[k] != root);
    }
}

/// No pair is carried by moved content, and the owners of its rows are partners in place.
pub open spec fn rows_sound(
    pair: SyntaxPair,
    tree: TreeDiff,
    proofs: ScopeProof,
    pairs: RowPairs,
) -> bool {
    forall|i: int|
        0 <= i < pairs.partners.before@.len() ==> ((
        #[trigger] pairs.partners.before@[i]) matches Some(j) ==> {
            let link = LineLink { before: i as usize, after: j };
            !is_carried(pair, tree, link) && (is_anchor(pair, proofs, link) || proofs.covers(
                link,
                true,
            ))
        })
}

/// Two links share a row or cross.
pub open spec fn links_clash(left: LineLink, right: LineLink) -> bool {
    !(left.before < right.before && left.after < right.after) && !(left.before > right.before
        && left.after > right.after)
}

/// An anchor that is paired, or carried by moved content, stands in the way of the link.
pub open spec fn anchor_clashes(
    pair: SyntaxPair,
    tree: TreeDiff,
    proofs: ScopeProof,
    pairs: RowPairs,
    link: LineLink,
) -> bool {
    exists|other: LineLink| #[trigger]
        is_anchor(pair, proofs, other) && links_clash(other, link) && (is_carried(
            pair,
            tree,
            other,
        ) || pairs.partners.before@[other.before as int] == Some(other.after))
}

/// Every anchor is paired, unless another one stands in its way.
pub open spec fn anchors_settled(
    pair: SyntaxPair,
    tree: TreeDiff,
    proofs: ScopeProof,
    pairs: RowPairs,
) -> bool {
    forall|link: LineLink| #[trigger]
        is_anchor(pair, proofs, link) ==> anchor_clashes(pair, tree, proofs, pairs, link)
}

/// Both rows are free, and pairing them would cross nothing.
pub open spec fn is_open(pairs: RowPairs, link: LineLink) -> bool {
    &&& pairs.partners.before@[link.before as int] is None
    &&& pairs.partners.after@[link.after as int] is None
    &&& pairs.admits(link)
}

/// No terminator edit of the list with matching owners is left open, unless moved content
/// carries it.
pub open spec fn edits_settled(
    pair: SyntaxPair,
    tree: TreeDiff,
    proofs: ScopeProof,
    pairs: RowPairs,
    links: Seq<LineLink>,
    end: int,
) -> bool {
    forall|k: int|
        0 <= k < end && is_ending_edit(pair, #[trigger] links[k]) && !is_carried(
            pair,
            tree,
            links[k],
        ) && proofs.covers(links[k], true) ==> !is_open(pairs, links[k])
}

/// Rows between two pairs that follow each other, or before the first or behind the last.
pub open spec fn is_gap(pair: SyntaxPair, pairs: RowPairs, before: Span, after: Span) -> bool {
    &&& before.start <= before.end <= pair.before.source.line_seq().len()
    &&& after.start <= after.end <= pair.after.source.line_seq().len()
    &&& forall|i: int|
        before.start <= i < before.end ==> (#[trigger] pairs.partners.before@[i]) is None
    &&& if before.start == 0 {
        after.start == 0
    } else {
        after.start > 0 && pairs.partners.before@[before.start - 1] == Some(
            (after.start - 1) as usize,
        )
    }
    &&& if before.end == pair.before.source.line_seq().len() {
        after.end == pair.after.source.line_seq().len()
    } else {
        pairs.partners.before@[before.end as int] == Some(after.end)
    }
}

/// A match between rows of a gap that is kept: it has equal terminators and matching owners, and
/// no moved content carries it.
pub open spec fn is_gap_pair(
    pair: SyntaxPair,
    tree: TreeDiff,
    proofs: ScopeProof,
    link: LineLink,
) -> bool {
    !is_ending_edit(pair, link) && !is_carried(pair, tree, link) && proofs.covers(link, true)
}

/// The pairs of the gap are the kept ones of an alignment of its rows by text.
pub open spec fn is_gap_filling(
    pair: SyntaxPair,
    texts: RowTexts,
    tree: TreeDiff,
    proofs: ScopeProof,
    pairs: RowPairs,
    before: Span,
    after: Span,
    matches: Seq<OrderedMatch>,
) -> bool {
    &&& is_alignment(
        matches,
        texts.before@.subrange(before.start as int, before.end as int),
        texts.after@.subrange(after.start as int, after.end as int),
    )
    &&& is_anchored_alignment(
        matches,
        texts.before@.subrange(before.start as int, before.end as int),
        texts.after@.subrange(after.start as int, after.end as int),
    )
    &&& forall|k: int|
        0 <= k < matches.len() ==> ({
            let link = anchor_link(before, after, #[trigger] matches[k]);
            is_gap_pair(pair, tree, proofs, link) ==> pairs.partners.before@[link.before as int]
                == Some(link.after)
        })
    &&& forall|i: int|
        before.start <= i < before.end && (#[trigger] pairs.partners.before@[i]) is Some ==> exists|
            k: int,
        |
            0 <= k < matches.len() && anchor_link(before, after, #[trigger] matches[k]) == (
            LineLink { before: i as usize, after: pairs.partners.before@[i]->0 }) && is_gap_pair(
                pair,
                tree,
                proofs,
                anchor_link(before, after, matches[k]),
            )
}

/// The rows of the gap are matched by text.
pub open spec fn gap_filled(
    pair: SyntaxPair,
    texts: RowTexts,
    tree: TreeDiff,
    proofs: ScopeProof,
    pairs: RowPairs,
    before: Span,
    after: Span,
) -> bool {
    exists|matches: Seq<OrderedMatch>| #[trigger]
        is_gap_filling(pair, texts, tree, proofs, pairs, before, after, matches)
}

/// Every gap between the anchors is matched by text.
pub open spec fn gaps_filled(
    pair: SyntaxPair,
    texts: RowTexts,
    tree: TreeDiff,
    proofs: ScopeProof,
    anchored: RowPairs,
    filled: RowPairs,
) -> bool {
    &&& keeps_pairs(anchored, filled)
    &&& forall|before: Span, after: Span| #[trigger]
        is_gap(pair, anchored, before, after) ==> gap_filled(
            pair,
            texts,
            tree,
            proofs,
            filled,
            before,
            after,
        )
}

/// Rows are paired in three steps: anchors, then the rows of each gap between them by text, then
/// terminator edits that fit in between.
pub open spec fn are_row_steps(
    pair: SyntaxPair,
    texts: RowTexts,
    tree: TreeDiff,
    proofs: ScopeProof,
    links: Seq<LineLink>,
    anchored: RowPairs,
    filled: RowPairs,
    pairs: RowPairs,
) -> bool {
    &&& forall|i: int|
        0 <= i < anchored.partners.before@.len() ==> ((
        #[trigger] anchored.partners.before@[i]) matches Some(j) ==> is_anchor(
            pair,
            proofs,
            LineLink { before: i as usize, after: j },
        ))
    &&& anchors_settled(pair, tree, proofs, anchored)
    &&& gaps_filled(pair, texts, tree, proofs, anchored, filled)
    &&& keeps_pairs(filled, pairs)
    &&& forall|i: int|
        0 <= i < pairs.partners.before@.len() && (#[trigger] pairs.partners.before@[i]) is Some
            && filled.partners.before@[i] is None ==> {
            let link = LineLink { before: i as usize, after: pairs.partners.before@[i]->0 };
            is_ending_edit(pair, link) && links.contains(link)
        }
}

/// Rows are paired step by step.
pub open spec fn steps_pair_rows(
    pair: SyntaxPair,
    texts: RowTexts,
    tree: TreeDiff,
    proofs: ScopeProof,
    links: Seq<LineLink>,
    pairs: RowPairs,
) -> bool {
    exists|anchored: RowPairs, filled: RowPairs| #[trigger]
        are_row_steps(pair, texts, tree, proofs, links, anchored, filled, pairs)
}

/// What fills a gap does not depend on other rows.
proof fn lemma_gap_stays(
    pair: SyntaxPair,
    texts: RowTexts,
    tree: TreeDiff,
    proofs: ScopeProof,
    earlier: RowPairs,
    later: RowPairs,
    before: Span,
    after: Span,
)
    requires
        texts.describes(pair.before.source, pair.after.source),
        before.start <= before.end <= pair.before.source.line_seq().len(),
        after.start <= after.end <= pair.after.source.line_seq().len(),
        gap_filled(pair, texts, tree, proofs, earlier, before, after),
        forall|i: int|
            before.start <= i < before.end ==> (#[trigger] later.partners.before@[i])
                == earlier.partners.before@[i],
    ensures
        gap_filled(pair, texts, tree, proofs, later, before, after),
{
    let matches = choose|matches: Seq<OrderedMatch>| #[trigger]
        is_gap_filling(pair, texts, tree, proofs, earlier, before, after, matches);
    let left = texts.before@.subrange(before.start as int, before.end as int);
    let right = texts.after@.subrange(after.start as int, after.end as int);
    assert forall|k: int| 0 <= k < matches.len() implies ({
        let link = anchor_link(before, after, #[trigger] matches[k]);
        is_gap_pair(pair, tree, proofs, link) ==> later.partners.before@[link.before as int]
            == Some(link.after)
    }) by {
        let link = anchor_link(before, after, matches[k]);
        assert(matches[k].before < left.len());
        assert(later.partners.before@[link.before as int]
            == earlier.partners.before@[link.before as int]);
    }
    assert forall|i: int|
        before.start <= i < before.end && (
        #[trigger] later.partners.before@[i]) is Some implies exists|k: int|
        0 <= k < matches.len() && anchor_link(before, after, #[trigger] matches[k]) == (
        LineLink { before: i as usize, after: later.partners.before@[i]->0 }) && is_gap_pair(
            pair,
            tree,
            proofs,
            anchor_link(before, after, matches[k]),
        ) by {
        assert(earlier.partners.before@[i] is Some);
    }
    assert(is_gap_filling(pair, texts, tree, proofs, later, before, after, matches));
}

/// Pairs once made are kept.
pub open spec fn keeps_pairs(earlier: RowPairs, later: RowPairs) -> bool {
    &&& later.partners.before@.len() == earlier.partners.before@.len()
    &&& forall|i: int|
        0 <= i < earlier.partners.before@.len() && (#[trigger] earlier.partners.before@[i]) is Some
            ==> later.partners.before@[i] == earlier.partners.before@[i]
}

proof fn lemma_closed_stays(pair: SyntaxPair, earlier: RowPairs, later: RowPairs, link: LineLink)
    requires
        earlier.ok(pair),
        later.ok(pair),
        keeps_pairs(earlier, later),
        link_fits(pair, link),
        is_open(later, link),
    ensures
        is_open(earlier, link),
{
    if earlier.partners.after@[link.after as int] is Some {
        let i = earlier.partners.after@[link.after as int]->0;
        assert(earlier.partners.before@[i as int] == Some(link.after));
        assert(later.partners.before@[i as int] == Some(link.after));
        assert(later.partners.after@[link.after as int] == Some(i));
    }
    assert forall|i: int| 0 <= i < link.before implies ((
    #[trigger] earlier.partners.before@[i]) matches Some(j) ==> j < link.after) by {
        if earlier.partners.before@[i] is Some {
            assert(later.partners.before@[i] == earlier.partners.before@[i]);
        }
    }
    assert forall|i: int| link.before < i < earlier.partners.before@.len() implies ((
    #[trigger] earlier.partners.before@[i]) matches Some(j) ==> j > link.after) by {
        if earlier.partners.before@[i] is Some {
            assert(later.partners.before@[i] == earlier.partners.before@[i]);
        }
    }
}

proof fn lemma_anchors_stay(
    pair: SyntaxPair,
    tree: TreeDiff,
    proofs: ScopeProof,
    earlier: RowPairs,
    later: RowPairs,
)
    requires
        earlier.ok(pair),
        anchors_settled(pair, tree, proofs, earlier),
        keeps_pairs(earlier, later),
    ensures
        anchors_settled(pair, tree, proofs, later),
{
    assert forall|link: LineLink| #[trigger] is_anchor(pair, proofs, link) implies anchor_clashes(
        pair,
        tree,
        proofs,
        later,
        link,
    ) by {
        assert(anchor_clashes(pair, tree, proofs, earlier, link));
        let other = choose|other: LineLink| #[trigger]
            is_anchor(pair, proofs, other) && links_clash(other, link) && (is_carried(
                pair,
                tree,
                other,
            ) || earlier.partners.before@[other.before as int] == Some(other.after));
        assert(is_anchor(pair, proofs, other));
    }
}

/// Keep physical anchors within matched scopes so repeated text cannot cross between owners.
#[verifier::rlimit(60)]
#[verifier::spinoff_prover]
pub fn scoped_physical_line_correspondence(
    pair: &SyntaxPair,
    tree: &TreeDiff,
    texts: &RowTexts,
    proofs: &ScopeProof,
    global: &PhysicalLineFacts,
) -> (pairs: RowPairs)
    requires
        pair.wf(),
        tree.fits(pair.before.nodes@.len() as int, pair.after.nodes@.len() as int),
        texts.describes(pair.before.source, pair.after.source),
        proofs.fits(*pair),
        global.ok(*pair),
    ensures
        pairs.ok(*pair),
        rows_sound(*pair, *tree, *proofs, pairs),
        anchors_settled(*pair, *tree, *proofs, pairs),
        edits_settled(
            *pair,
            *tree,
            *proofs,
            pairs,
            global.links@,
            global.links@.len() as int,
        ),
        steps_pair_rows(*pair, *texts, *tree, *proofs, global.links@, pairs),
{
    let moved = semantically_reordered_line_links(pair, tree);
    let mut pairs = anchor_rows(pair, texts, proofs, &moved, Ghost(*tree));
    let ghost anchored = pairs;
    fill_gaps(pair, texts, proofs, &moved, &mut pairs, Ghost(*tree));
    proof {
        lemma_anchors_stay(*pair, *tree, *proofs, anchored, pairs);
    }
    let ghost filled = pairs;
    let mut index: usize = 0;
    while index < global.links.len()
        invariant
            global.ok(*pair),
            proofs.fits(*pair),
            moved.lists(*pair, *tree),
            pairs.ok(*pair),
            rows_sound(*pair, *tree, *proofs, pairs),
            anchors_settled(*pair, *tree, *proofs, pairs),
            edits_settled(*pair, *tree, *proofs, pairs, global.links@, index as int),
            index <= global.links@.len(),
            keeps_pairs(filled, pairs),
            forall|i: int|
                0 <= i < pairs.partners.before@.len() && (
                #[trigger] pairs.partners.before@[i]) is Some && filled.partners.before@[i] is None
                    ==> {
                    let link = LineLink { before: i as usize, after: pairs.partners.before@[i]->0 };
                    is_ending_edit(*pair, link) && global.links@.contains(link)
                },
        decreases global.links@.len() - index,
    {
        let link = global.links[index];
        assert(global.links@[index as int] == link);
        assert(moved.holds(link) <==> is_carried(*pair, *tree, link));
        let ghost earlier = pairs;
        if !same_ending(pair, link) && pairs.partners.after[link.after].is_none() && !moved.has(link)
            && proofs.line_has_scoped_cover(link, true) && pairs.line_link_preserves_order(
            pair,
            link,
        ) {
            pairs.add_link(pair, link);
        }
        proof {
            assert(keeps_pairs(earlier, pairs));
            assert forall|i: int|
                0 <= i < pairs.partners.before@.len() && (
                #[trigger] pairs.partners.before@[i]) is Some && filled.partners.before@[i] is None
                    implies ({
                let link = LineLink { before: i as usize, after: pairs.partners.before@[i]->0 };
                is_ending_edit(*pair, link) && global.links@.contains(link)
            }) by {
                if earlier.partners.before@[i] is Some {
                    assert(pairs.partners.before@[i] == earlier.partners.before@[i]);
                } else {
                    assert(global.links@[index as int] == link);
                }
            }
            lemma_anchors_stay(*pair, *tree, *proofs, earlier, pairs);
            assert forall|k: int|
                0 <= k < index + 1 && is_ending_edit(
                    *pair,
                    #[trigger] global.links@[k],
                ) && !is_carried(*pair, *tree, global.links@[k]) && proofs.covers(
                    global.links@[k],
                    true,
                ) implies !is_open(pairs, global.links@[k]) by {
                assert(link_fits(*pair, global.links@[k]));
                if is_open(pairs, global.links@[k]) {
                    lemma_closed_stays(*pair, earlier, pairs, global.links@[k]);
                }
            }
        }
        index += 1;
    }
    assert(are_row_steps(
        *pair,
        *texts,
        *tree,
        *proofs,
        global.links@,
        anchored,
        filled,
        pairs,
    ));
    pairs
}

/// The link of a match between keyed rows.
spec fn keyed_link(
    before_rows: Seq<usize>,
    after_rows: Seq<usize>,
    edge: OrderedMatch,
) -> LineLink {
    LineLink {
        before: before_rows[edge.before as int],
        after: after_rows[edge.after as int],
    }
}

/// Equal keys are those of an anchor.
proof fn lemma_equal_keys_anchor(
    pair: SyntaxPair,
    texts: RowTexts,
    proofs: ScopeProof,
    left: KeyedRows,
    right: KeyedRows,
    x: int,
    y: int,
)
    requires
        texts.describes(pair.before.source, pair.after.source),
        left.describes(pair, proofs, true, texts.before@, texts.before@.len() as int),
        right.describes(pair, proofs, false, texts.after@, texts.after@.len() as int),
        0 <= x < left.rows@.len(),
        0 <= y < right.rows@.len(),
    ensures
        left.keys@[x]@ == right.keys@[y]@ <==> is_anchor(
            pair,
            proofs,
            LineLink { before: left.rows@[x], after: right.rows@[y] },
        ),
{
    let row = left.rows@[x] as int;
    let other = right.rows@[y] as int;
    let left_key = left.keys@[x]@;
    let right_key = right.keys@[y]@;
    assert(is_key(proofs, true, texts.before@, row, left_key));
    assert(is_key(proofs, false, texts.after@, other, right_key));
    assert(texts.before@[row] == texts.after@[other] <==> pair.before.source.line_content(
        pair.before.source.line_seq()[row],
    ) == pair.after.source.line_content(pair.after.source.line_seq()[other]));
    if left_key == right_key {
        assert forall|owner: usize| #[trigger]
            proofs.after_lines@[other]@.contains(owner) <==> proofs.reaches(row, owner) by {
            assert(is_row_owner(proofs, true, row, owner) <==> left_key.skip(1).contains(owner));
            assert(is_row_owner(proofs, false, other, owner) <==> right_key.skip(1).contains(
                owner,
            ));
        }
    }
    if is_anchor(pair, proofs, LineLink { before: left.rows@[x], after: right.rows@[y] }) {
        assert forall|owner: usize| left_key.skip(1).contains(owner)
            <==> #[trigger] right_key.skip(1).contains(owner) by {
            assert(is_row_owner(proofs, true, row, owner) <==> left_key.skip(1).contains(owner));
            assert(is_row_owner(proofs, false, other, owner) <==> right_key.skip(1).contains(
                owner,
            ));
            assert(proofs.after_lines@[other]@.contains(owner) <==> proofs.reaches(row, owner));
        }
        lemma_ascending_unique(left_key.skip(1), right_key.skip(1));
        assert(left_key =~= seq![left_key[0]] + left_key.skip(1));
        assert(right_key =~= seq![right_key[0]] + right_key.skip(1));
    }
}

/// A matching of equal keys that leaves nothing open settles the anchors.
#[verifier::rlimit(60)]
#[verifier::spinoff_prover]
proof fn lemma_keys_settle(
    pair: SyntaxPair,
    texts: RowTexts,
    tree: TreeDiff,
    proofs: ScopeProof,
    left: KeyedRows,
    right: KeyedRows,
    matches: Seq<OrderedMatch>,
    pairs: RowPairs,
)
    requires
        texts.describes(pair.before.source, pair.after.source),
        left.describes(pair, proofs, true, texts.before@, texts.before@.len() as int),
        right.describes(pair, proofs, false, texts.after@, texts.after@.len() as int),
        keys_agree(matches, key_views(left.keys@), key_views(right.keys@)),
        keys_blocked(matches, key_views(left.keys@), key_views(right.keys@)),
        forall|m: int|
            0 <= m < matches.len() ==> ({
                let link = keyed_link(left.rows@, right.rows@, #[trigger] matches[m]);
                is_carried(pair, tree, link) || pairs.partners.before@[link.before as int] == Some(
                    link.after,
                )
            }),
    ensures
        anchors_settled(pair, tree, proofs, pairs),
{
    let before_keys = key_views(left.keys@);
    let after_keys = key_views(right.keys@);
    assert forall|link: LineLink| #[trigger] is_anchor(pair, proofs, link) implies anchor_clashes(
        pair,
        tree,
        proofs,
        pairs,
        link,
    ) by {
        assert(may_anchor(pair, proofs, true, link.before as int));
        assert(may_anchor(pair, proofs, false, link.after as int));
        assert(left.rows@.contains(link.before));
        assert(right.rows@.contains(link.after));
        let x = choose|x: int| 0 <= x < left.rows@.len() && left.rows@[x] == link.before;
        let y = choose|y: int| 0 <= y < right.rows@.len() && right.rows@[y] == link.after;
        lemma_equal_keys_anchor(pair, texts, proofs, left, right, x, y);
        assert(before_keys[x] == after_keys[y]);
        assert(is_blocked(matches, x, y));
        let m = choose|m: int|
            0 <= m < matches.len() && !((#[trigger] matches[m]).before < x && matches[m].after < y)
                && !(matches[m].before > x && matches[m].after > y);
        let edge = matches[m];
        let other = keyed_link(left.rows@, right.rows@, edge);
        assert(before_keys[edge.before as int] == after_keys[edge.after as int]);
        lemma_equal_keys_anchor(
            pair,
            texts,
            proofs,
            left,
            right,
            edge.before as int,
            edge.after as int,
        );
        assert(is_anchor(pair, proofs, other));
        assert(links_clash(other, link)) by {
            if other.before < link.before && other.after < link.after {
                assert(edge.before < x) by {
                    if edge.before > x {
                        assert(left.rows@[x] < left.rows@[edge.before as int]);
                    }
                }
                assert(edge.after < y) by {
                    if edge.after > y {
                        assert(right.rows@[y] < right.rows@[edge.after as int]);
                    }
                }
            }
            if other.before > link.before && other.after > link.after {
                assert(edge.before > x) by {
                    if edge.before < x {
                        assert(left.rows@[edge.before as int] < left.rows@[x]);
                    }
                }
                assert(edge.after > y) by {
                    if edge.after < y {
                        assert(right.rows@[edge.after as int] < right.rows@[y]);
                    }
                }
            }
        }
    }
}

/// Align rows that have the same text and the same owners.
#[verifier::rlimit(60)]
fn anchor_rows(
    pair: &SyntaxPair,
    texts: &RowTexts,
    proofs: &ScopeProof,
    moved: &MovedRows,
    Ghost(tree): Ghost<TreeDiff>,
) -> (pairs: RowPairs)
    requires
        pair.wf(),
        texts.describes(pair.before.source, pair.after.source),
        proofs.fits(*pair),
        moved.lists(*pair, tree),
    ensures
        pairs.ok(*pair),
        rows_sound(*pair, tree, *proofs, pairs),
        anchors_settled(*pair, tree, *proofs, pairs),
        forall|i: int|
            0 <= i < pairs.partners.before@.len() ==> ((
            #[trigger] pairs.partners.before@[i]) matches Some(j) ==> is_anchor(
                *pair,
                *proofs,
                LineLink { before: i as usize, after: j },
            )),
{
    let left = keyed_rows(pair, texts, proofs, true);
    let right = keyed_rows(pair, texts, proofs, false);
    let ghost before_keyed = left;
    let ghost after_keyed = right;
    let KeyedRows { rows: before_rows, keys: before_keys } = left;
    let KeyedRows { rows: after_rows, keys: after_keys } = right;
    let matches = ordered_key_matches(before_keys, after_keys);
    let mut pairs = RowPairs {
        partners: Partners::new(pair.before.source.line_count(), pair.after.source.line_count()),
    };
    let mut index: usize = 0;
    while index < matches.len()
        invariant
            texts.describes(pair.before.source, pair.after.source),
            moved.lists(*pair, tree),
            before_keyed.describes(
                *pair,
                *proofs,
                true,
                texts.before@,
                texts.before@.len() as int,
            ),
            after_keyed.describes(*pair, *proofs, false, texts.after@, texts.after@.len() as int),
            before_rows@ == before_keyed.rows@,
            after_rows@ == after_keyed.rows@,
            index <= matches@.len(),
            monotone(matches@),
            keys_agree(matches@, key_views(before_keyed.keys@), key_views(after_keyed.keys@)),
            pairs.ok(*pair),
            rows_sound(*pair, tree, *proofs, pairs),
            forall|i: int|
                0 <= i < pairs.partners.before@.len() ==> ((
                #[trigger] pairs.partners.before@[i]) matches Some(j) ==> is_anchor(
                    *pair,
                    *proofs,
                    LineLink { before: i as usize, after: j },
                )),
            forall|m: int|
                0 <= m < index ==> ({
                    let link = keyed_link(before_rows@, after_rows@, #[trigger] matches@[m]);
                    is_carried(*pair, tree, link) || pairs.partners.before@[link.before as int]
                        == Some(link.after)
                }),
            index == 0 ==> pairs.below(0, 0),
            index > 0 ==> pairs.below(
                before_rows@[matches@[index - 1].before as int] + 1,
                after_rows@[matches@[index - 1].after as int] + 1,
            ),
        decreases matches@.len() - index,
    {
        let edge = matches[index];
        assert(matches@[index as int] == edge);
        let link = LineLink { before: before_rows[edge.before], after: after_rows[edge.after] };
        proof {
            assert(key_views(before_keyed.keys@)[edge.before as int] == key_views(
                after_keyed.keys@,
            )[edge.after as int]);
            lemma_equal_keys_anchor(
                *pair,
                *texts,
                *proofs,
                before_keyed,
                after_keyed,
                edge.before as int,
                edge.after as int,
            );
            assert(is_anchor(*pair, *proofs, link));
            assert(is_exact(*pair, link) || is_ending_edit(*pair, link));
            if index > 0 {
                assert(matches@[index - 1].before < matches@[index as int].before);
                assert(matches@[index - 1].after < matches@[index as int].after);
            }
            assert(pairs.below(link.before as int, link.after as int));
            assert(pairs.partners.before@[link.before as int] is None);
            assert(moved.holds(link) <==> is_carried(*pair, tree, link));
        }
        if !moved.has(link) {
            pairs.add_link(pair, link);
        }
        index += 1;
    }
    proof {
        lemma_keys_settle(
            *pair,
            *texts,
            tree,
            *proofs,
            before_keyed,
            after_keyed,
            matches@,
            pairs,
        );
    }
    pairs
}

/// Match the rows between anchors by text, each gap separately, so that text matches cannot
/// cross the stronger syntax anchors.
#[verifier::rlimit(60)]
#[verifier::spinoff_prover]
fn fill_gaps(
    pair: &SyntaxPair,
    texts: &RowTexts,
    proofs: &ScopeProof,
    moved: &MovedRows,
    pairs: &mut RowPairs,
    Ghost(tree): Ghost<TreeDiff>,
)
    requires
        pair.wf(),
        texts.describes(pair.before.source, pair.after.source),
        proofs.fits(*pair),
        moved.lists(*pair, tree),
        old(pairs).ok(*pair),
        rows_sound(*pair, tree, *proofs, *old(pairs)),
    ensures
        final(pairs).ok(*pair),
        rows_sound(*pair, tree, *proofs, *final(pairs)),
        gaps_filled(*pair, *texts, tree, *proofs, *old(pairs), *final(pairs)),
{
    let ghost anchored = *pairs;
    let before_count = pair.before.source.line_count();
    let after_count = pair.after.source.line_count();
    let mut before_start: usize = 0;
    let mut after_start: usize = 0;
    let mut row: usize = 0;
    while row < before_count
        invariant
            pair.wf(),
            texts.describes(pair.before.source, pair.after.source),
            proofs.fits(*pair),
            moved.lists(*pair, tree),
            pairs.ok(*pair),
            rows_sound(*pair, tree, *proofs, *pairs),
            keeps_pairs(*old(pairs), *pairs),
            before_count == pair.before.source.line_seq().len(),
            after_count == pair.after.source.line_seq().len(),
            before_start <= row <= before_count,
            after_start <= after_count,
            anchored == *old(pairs),
            anchored.ok(*pair),
            before_start == 0 ==> after_start == 0,
            before_start > 0 ==> after_start > 0 && anchored.partners.before@[before_start - 1]
                == Some((after_start - 1) as usize),
            forall|i: int|
                before_start <= i < before_count ==> (#[trigger] pairs.partners.before@[i])
                    == anchored.partners.before@[i],
            forall|before: Span, after: Span|
                before.end < before_start && #[trigger] is_gap(*pair, anchored, before, after)
                    ==> gap_filled(*pair, *texts, tree, *proofs, *pairs, before, after),
            forall|i: int|
                before_start <= i < row ==> (#[trigger] pairs.partners.before@[i]) is None,
            forall|i: int|
                0 <= i < before_start ==> ((#[trigger] pairs.partners.before@[i]) matches Some(j)
                    ==> j < after_start),
            forall|i: int|
                row <= i < before_count ==> ((#[trigger] pairs.partners.before@[i]) matches Some(j)
                    ==> j >= after_start),
        decreases before_count - row,
    {
        if let Some(after) = pairs.partners.before[row] {
            assert(pairs.partners.before@[row as int] == Some(after));
            proof {
                assert forall|i: int| row <= i < before_count implies ((
                #[trigger] pairs.partners.before@[i]) matches Some(j) ==> j >= after) by {
                    if i > row && pairs.partners.before@[i] is Some {
                        assert(pairs.partners.before@[row as int] is Some);
                    }
                }
            }
            let ghost earlier = *pairs;
            let ghost rows = Span { start: before_start, end: row };
            let ghost others = Span { start: after_start, end: after };
            fill_gap(
                pair,
                texts,
                proofs,
                moved,
                Span { start: before_start, end: row },
                Span { start: after_start, end: after },
                pairs,
                Ghost(tree),
            );
            proof {
                lemma_gaps_so_far(
                    *pair,
                    *texts,
                    tree,
                    *proofs,
                    anchored,
                    earlier,
                    *pairs,
                    rows,
                    others,
                );
            }
            before_start = row + 1;
            after_start = after + 1;
            proof {
                assert forall|i: int| row + 1 <= i < before_count implies ((
                #[trigger] pairs.partners.before@[i]) matches Some(j) ==> j >= after + 1) by {
                    if pairs.partners.before@[i] is Some {
                        assert(pairs.partners.before@[row as int] is Some);
                    }
                }
            }
        }
        row += 1;
    }
    let ghost earlier = *pairs;
    fill_gap(
        pair,
        texts,
        proofs,
        moved,
        Span { start: before_start, end: before_count },
        Span { start: after_start, end: after_count },
        pairs,
        Ghost(tree),
    );
    proof {
        lemma_gaps_so_far(
            *pair,
            *texts,
            tree,
            *proofs,
            anchored,
            earlier,
            *pairs,
            Span { start: before_start, end: before_count },
            Span { start: after_start, end: after_count },
        );
        assert forall|before: Span, after: Span| #[trigger]
            is_gap(*pair, anchored, before, after) implies gap_filled(
            *pair,
            *texts,
            tree,
            *proofs,
            *pairs,
            before,
            after,
        ) by {
            assert(before.end <= before_count);
        }
    }
}

/// One more gap filled.
proof fn lemma_gaps_so_far(
    pair: SyntaxPair,
    texts: RowTexts,
    tree: TreeDiff,
    proofs: ScopeProof,
    anchored: RowPairs,
    earlier: RowPairs,
    later: RowPairs,
    rows: Span,
    others: Span,
)
    requires
        texts.describes(pair.before.source, pair.after.source),
        anchored.ok(pair),
        earlier.partners.before@.len() == anchored.partners.before@.len(),
        is_gap(pair, anchored, rows, others),
        gap_filled(pair, texts, tree, proofs, later, rows, others),
        forall|before: Span, after: Span|
            before.end < rows.start && #[trigger] is_gap(pair, anchored, before, after)
                ==> gap_filled(pair, texts, tree, proofs, earlier, before, after),
        forall|i: int|
            0 <= i < rows.start ==> (#[trigger] later.partners.before@[i])
                == earlier.partners.before@[i],
    ensures
        forall|before: Span, after: Span|
            before.end <= rows.end && #[trigger] is_gap(pair, anchored, before, after)
                ==> gap_filled(pair, texts, tree, proofs, later, before, after),
{
    assert forall|before: Span, after: Span|
        before.end <= rows.end && #[trigger] is_gap(pair, anchored, before, after) implies gap_filled(
        pair,
        texts,
        tree,
        proofs,
        later,
        before,
        after,
    ) by {
        if before.end < rows.start {
            lemma_gap_stays(pair, texts, tree, proofs, earlier, later, before, after);
        } else {
            if before.end < rows.end {
                assert(anchored.partners.before@[before.end as int] is None);
            }
            assert(before.end == rows.end);
            if before.start < rows.start {
                assert(anchored.partners.before@[rows.start - 1] is Some);
                assert(anchored.partners.before@[rows.start - 1] is None);
            }
            if rows.start < before.start {
                assert(anchored.partners.before@[before.start - 1] is None);
            }
            assert(before == rows && after == others);
        }
    }
}

/// Match the rows of one gap.
#[verifier::rlimit(60)]
#[verifier::spinoff_prover]
fn fill_gap(
    pair: &SyntaxPair,
    texts: &RowTexts,
    proofs: &ScopeProof,
    moved: &MovedRows,
    before: Span,
    after: Span,
    pairs: &mut RowPairs,
    Ghost(tree): Ghost<TreeDiff>,
)
    requires
        pair.wf(),
        texts.describes(pair.before.source, pair.after.source),
        proofs.fits(*pair),
        moved.lists(*pair, tree),
        old(pairs).ok(*pair),
        rows_sound(*pair, tree, *proofs, *old(pairs)),
        before.start <= before.end <= pair.before.source.line_seq().len(),
        after.start <= after.end <= pair.after.source.line_seq().len(),
        forall|i: int|
            before.start <= i < before.end ==> (#[trigger] old(pairs).partners.before@[i]) is None,
        forall|i: int|
            0 <= i < before.start ==> ((#[trigger] old(pairs).partners.before@[i]) matches Some(j)
                ==> j < after.start),
        forall|i: int|
            before.end <= i < old(pairs).partners.before@.len() ==> ((
            #[trigger] old(pairs).partners.before@[i]) matches Some(j) ==> j >= after.end),
    ensures
        final(pairs).ok(*pair),
        rows_sound(*pair, tree, *proofs, *final(pairs)),
        keeps_pairs(*old(pairs), *final(pairs)),
        forall|i: int|
            0 <= i < before.start || before.end <= i < old(pairs).partners.before@.len() ==> (
            #[trigger] final(pairs).partners.before@[i]) == old(pairs).partners.before@[i],
        forall|i: int|
            before.start <= i < before.end ==> ((
            #[trigger] final(pairs).partners.before@[i]) matches Some(j) ==> after.start <= j
                < after.end),
        gap_filled(*pair, *texts, tree, *proofs, *final(pairs), before, after),
{
    let left = vstd::slice::slice_subrange(texts.before.as_slice(), before.start, before.end);
    let right = vstd::slice::slice_subrange(texts.after.as_slice(), after.start, after.end);
    let matches = ordered_matches(left, right);
    let ghost start = pairs.partners.before@;
    let mut index: usize = 0;
    while index < matches.len()
        invariant
            texts.describes(pair.before.source, pair.after.source),
            proofs.fits(*pair),
            moved.lists(*pair, tree),
            pairs.ok(*pair),
            rows_sound(*pair, tree, *proofs, *pairs),
            before.start <= before.end <= pair.before.source.line_seq().len(),
            after.start <= after.end <= pair.after.source.line_seq().len(),
            left@ == texts.before@.subrange(before.start as int, before.end as int),
            right@ == texts.after@.subrange(after.start as int, after.end as int),
            is_alignment(matches@, left@, right@),
            index <= matches@.len(),
            forall|k: int|
                0 <= k < index ==> ({
                    let link = anchor_link(before, after, #[trigger] matches@[k]);
                    is_gap_pair(*pair, tree, *proofs, link)
                        ==> pairs.partners.before@[link.before as int] == Some(link.after)
                }),
            forall|i: int|
                before.start <= i < before.end && (
                #[trigger] pairs.partners.before@[i]) is Some ==> exists|k: int|
                    0 <= k < index && anchor_link(before, after, #[trigger] matches@[k]) == (
                    LineLink { before: i as usize, after: pairs.partners.before@[i]->0 })
                        && is_gap_pair(
                        *pair,
                        tree,
                        *proofs,
                        anchor_link(before, after, matches@[k]),
                    ),
            start.len() == pairs.partners.before@.len(),
            forall|i: int|
                0 <= i < before.start ==> ((#[trigger] start[i]) matches Some(j) ==> j
                    < after.start),
            forall|i: int|
                before.end <= i < start.len() ==> ((#[trigger] start[i]) matches Some(j) ==> j
                    >= after.end),
            forall|i: int|
                0 <= i < before.start || before.end <= i < start.len() ==> (
                #[trigger] pairs.partners.before@[i]) == start[i],
            forall|i: int|
                before.start <= i < before.end ==> ((
                #[trigger] pairs.partners.before@[i]) matches Some(j) ==> after.start <= j
                    < after.end && index > 0 && i <= before.start + matches@[index - 1].before && j
                    <= after.start + matches@[index - 1].after),
        decreases matches@.len() - index,
    {
        let edge = matches[index];
        assert(matches@[index as int] == edge);
        assert(edge.before < left@.len() && edge.after < right@.len());
        let link = LineLink { before: before.start + edge.before, after: after.start + edge.after };
        proof {
            assert(left@[edge.before as int] == right@[edge.after as int]);
            assert(texts.before@[link.before as int] == texts.after@[link.after as int]);
            if index > 0 {
                assert(matches@[index - 1].before < matches@[index as int].before);
                assert(matches@[index - 1].after < matches@[index as int].after);
            }
            assert(moved.holds(link) <==> is_carried(*pair, tree, link));
            assert(link == anchor_link(before, after, edge));
        }
        let ghost fewer = pairs.partners.before@;
        if same_ending(pair, link) && !moved.has(link) && proofs.line_has_scoped_cover(link, true) {
            proof {
                assert(pairs.partners.before@[link.before as int] is None);
                assert forall|i: int| 0 <= i < link.before implies ((
                #[trigger] pairs.partners.before@[i]) matches Some(j) ==> j < link.after) by {
                    if i < before.start {
                        assert(pairs.partners.before@[i] == start[i]);
                    }
                }
                assert forall|i: int| link.before < i < pairs.partners.before@.len() implies ((
                #[trigger] pairs.partners.before@[i]) matches Some(j) ==> j > link.after) by {
                    if i >= before.end {
                        assert(pairs.partners.before@[i] == start[i]);
                    }
                }
            }
            pairs.add_link(pair, link);
        }
        proof {
            assert forall|k: int| 0 <= k < index + 1 implies ({
                let link = anchor_link(before, after, #[trigger] matches@[k]);
                is_gap_pair(*pair, tree, *proofs, link)
                    ==> pairs.partners.before@[link.before as int] == Some(link.after)
            }) by {
                if k < index {
                    assert(matches@[k].before < matches@[index as int].before);
                }
            }
            assert forall|i: int|
                before.start <= i < before.end && (
                #[trigger] pairs.partners.before@[i]) is Some implies exists|k: int|
                0 <= k < index + 1 && anchor_link(before, after, #[trigger] matches@[k]) == (
                LineLink { before: i as usize, after: pairs.partners.before@[i]->0 })
                    && is_gap_pair(*pair, tree, *proofs, anchor_link(before, after, matches@[k])) by {
                if i == link.before {
                    assert(anchor_link(before, after, matches@[index as int]) == link);
                } else {
                    assert(pairs.partners.before@[i] == fewer[i]);
                }
            }
        }
        index += 1;
    }
    assert(is_gap_filling(*pair, *texts, tree, *proofs, *pairs, before, after, matches@));
}

} // verus!

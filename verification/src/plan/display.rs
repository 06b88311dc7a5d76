//! Context around changes, omitted lines, and lines that need no second showing.

use crate::context::{ranges_overlap, CONTEXT_HALO_RADIUS};
use crate::correspondence::scopes::{ascending, insert_ascending};
use crate::plan::anchored::{
    keeps_review, lemma_keeps_chain, lemma_keeps_members, reversed, AnchoredChange,
};
use crate::plan::excerpts::{
    add_displayed, displayed_by, displayed_lines, displays, holds,
};
use crate::plan::order::{LineAlignment, SignalFocus};
use crate::plan::rows::{coverage_fits, include_line};
use crate::plan::sequence::picks_in_order;
use crate::plan::tally::{
    change_weight, lemma_tally_plain, lemma_tally_push, lemma_total_join, tally, Claim,
};
use crate::review::{change_fits, changes_fit, is_line, LineCoverage, SourceChange};
use crate::span::Span;
use vstd::prelude::*;

verus! {

/// First line of a halo.
pub open spec fn halo_start(signal: usize) -> int {
    if signal > CONTEXT_HALO_RADIUS {
        signal - CONTEXT_HALO_RADIUS
    } else {
        1
    }
}

/// The line lies within the context radius of the signal, and exists.
pub open spec fn in_halo(signal: usize, line: usize, count: int) -> bool {
    halo_start(signal) <= line <= signal + CONTEXT_HALO_RADIUS && line <= count
}

/// The list holds the current line at which the old line would stand.
pub open spec fn holds_anchor(
    alignment: LineAlignment<'_>,
    before_line: usize,
    lines: Seq<usize>,
) -> bool {
    exists|anchor: usize| #[trigger]
        alignment.is_anchor_line(before_line, anchor) && lines.contains(anchor)
}

/// Some old line of the focus would stand at the current line.
pub open spec fn anchors_at(alignment: LineAlignment<'_>, focus: SignalFocus, line: usize) -> bool {
    exists|before_line: usize| #[trigger]
        alignment.is_anchor_line(before_line, line) && focus.before@.contains(before_line)
}

/// The current line belongs to the focus, or an old line of it would stand there.
pub open spec fn is_focus_line(
    alignment: LineAlignment<'_>,
    focus: SignalFocus,
    line: usize,
) -> bool {
    focus.after@.contains(line) || anchors_at(alignment, focus, line)
}

/// The current line lies around the focus.
pub open spec fn is_near(alignment: LineAlignment<'_>, focus: SignalFocus, line: usize) -> bool {
    exists|signal: usize| #[trigger]
        in_halo(signal, line, alignment.after_lines as int) && is_focus_line(
            alignment,
            focus,
            signal,
        )
}

/// The current line was displayed, or lies around the focus.
pub open spec fn is_wanted(
    alignment: LineAlignment<'_>,
    focus: SignalFocus,
    earlier: Seq<SourceChange>,
    line: usize,
) -> bool {
    displays(earlier, line) || is_near(alignment, focus, line)
}

/// A displayed line was displayed before, lies around the focus, or is the only line between two
/// lines that do.
pub open spec fn displays_wanted(
    alignment: LineAlignment<'_>,
    focus: SignalFocus,
    earlier: Seq<SourceChange>,
    later: Seq<SourceChange>,
) -> bool {
    forall|line: usize| #[trigger]
        displays(later, line) ==> is_wanted(alignment, focus, earlier, line) || (1 < line
            < usize::MAX && is_wanted(alignment, focus, earlier, (line - 1) as usize) && is_wanted(
            alignment,
            focus,
            earlier,
            (line + 1) as usize,
        ))
}

/// All lines around a current line are displayed.
pub open spec fn haloed(changes: Seq<SourceChange>, signal: usize, count: int) -> bool {
    forall|line: usize| #[trigger]
        in_halo(signal, line, count) ==> displays(changes, line)
}

/// All lines around the current line at which the old line would stand are displayed.
pub open spec fn anchor_haloed(
    alignment: LineAlignment<'_>,
    changes: Seq<SourceChange>,
    before_line: usize,
) -> bool {
    exists|anchor: usize| #[trigger]
        alignment.is_anchor_line(before_line, anchor) && haloed(
            changes,
            anchor,
            alignment.after_lines as int,
        )
}

/// The lines around every line that asks for context are displayed.
pub open spec fn focus_haloed(
    alignment: LineAlignment<'_>,
    focus: SignalFocus,
    changes: Seq<SourceChange>,
) -> bool {
    &&& forall|signal: usize| #[trigger]
        focus.after@.contains(signal) ==> haloed(changes, signal, alignment.after_lines as int)
    &&& alignment.after_lines > 0 ==> forall|line: usize| #[trigger]
        focus.before@.contains(line) ==> anchor_haloed(alignment, changes, line)
}

/// What displays no less keeps the lines around every focus displayed.
pub proof fn lemma_haloed_more(
    alignment: LineAlignment<'_>,
    focus: SignalFocus,
    earlier: Seq<SourceChange>,
    later: Seq<SourceChange>,
)
    requires
        focus_haloed(alignment, focus, earlier),
        forall|line: usize| displays(earlier, line) ==> #[trigger] displays(later, line),
    ensures
        focus_haloed(alignment, focus, later),
{
    assert forall|signal: usize| #[trigger] focus.after@.contains(signal) implies haloed(
        later,
        signal,
        alignment.after_lines as int,
    ) by {
        assert(haloed(earlier, signal, alignment.after_lines as int));
    }
    if alignment.after_lines > 0 {
        assert forall|line: usize| #[trigger] focus.before@.contains(line) implies anchor_haloed(
            alignment,
            later,
            line,
        ) by {
            assert(anchor_haloed(alignment, earlier, line));
            let anchor = choose|anchor: usize| #[trigger]
                alignment.is_anchor_line(line, anchor) && haloed(
                    earlier,
                    anchor,
                    alignment.after_lines as int,
                );
            assert(haloed(later, anchor, alignment.after_lines as int));
        }
    }
}

/// Current lines at which the focus of a change stands.
fn focus_signals(change: &AnchoredChange, alignment: &LineAlignment<'_>) -> (lines: Vec<usize>)
    requires
        alignment.wf(),
        change.context_focus.fits(alignment.before_lines as int, alignment.after_lines as int),
    ensures
        ascending(lines@),
        forall|k: int|
            0 <= k < lines@.len() ==> is_line(#[trigger] lines@[k], alignment.after_lines as int),
        forall|k: int|
            0 <= k < change.context_focus.after@.len() ==> lines@.contains(
                #[trigger] change.context_focus.after@[k],
            ),
        alignment.after_lines > 0 ==> forall|k: int|
            0 <= k < change.context_focus.before@.len() ==> holds_anchor(
                *alignment,
                #[trigger] change.context_focus.before@[k],
                lines@,
            ),
        forall|line: usize| #[trigger]
            lines@.contains(line) ==> is_focus_line(*alignment, change.context_focus, line),
{
    let mut lines: Vec<usize> = Vec::new();
    let mut index: usize = 0;
    while index < change.context_focus.after.len()
        invariant
            change.context_focus.fits(alignment.before_lines as int, alignment.after_lines as int),
            index <= change.context_focus.after@.len(),
            ascending(lines@),
            forall|k: int|
                0 <= k < lines@.len() ==> is_line(
                    #[trigger] lines@[k],
                    alignment.after_lines as int,
                ),
            forall|k: int|
                0 <= k < index ==> lines@.contains(#[trigger] change.context_focus.after@[k]),
            forall|line: usize| #[trigger]
                lines@.contains(line) ==> is_focus_line(*alignment, change.context_focus, line),
        decreases change.context_focus.after@.len() - index,
    {
        let line = change.context_focus.after[index];
        let ghost earlier = lines@;
        assert(1 <= change.context_focus.after@[index as int] <= alignment.after_lines);
        insert_ascending(&mut lines, line);
        proof {
            assert(change.context_focus.after@.contains(line));
            assert forall|other: usize| #[trigger] lines@.contains(other) implies is_focus_line(
                *alignment,
                change.context_focus,
                other,
            ) by {
                if other != line {
                    assert(earlier.contains(other));
                }
            }
            crate::plan::order::lemma_inserted_lines(
                earlier,
                lines@,
                line,
                alignment.after_lines as int,
            );
            assert forall|k: int| 0 <= k < index + 1 implies lines@.contains(
                #[trigger] change.context_focus.after@[k],
            ) by {
                if k < index {
                    assert(earlier.contains(change.context_focus.after@[k]));
                }
            }
        }
        index += 1;
    }
    let mut at: usize = 0;
    while at < change.context_focus.before.len()
        invariant
            alignment.wf(),
            at <= change.context_focus.before@.len(),
            ascending(lines@),
            forall|k: int|
                0 <= k < lines@.len() ==> is_line(
                    #[trigger] lines@[k],
                    alignment.after_lines as int,
                ),
            forall|k: int|
                0 <= k < change.context_focus.after@.len() ==> lines@.contains(
                    #[trigger] change.context_focus.after@[k],
                ),
            alignment.after_lines > 0 ==> forall|k: int|
                0 <= k < at ==> holds_anchor(
                    *alignment,
                    #[trigger] change.context_focus.before@[k],
                    lines@,
                ),
            forall|line: usize| #[trigger]
                lines@.contains(line) ==> is_focus_line(*alignment, change.context_focus, line),
        decreases change.context_focus.before@.len() - at,
    {
        if let Some(line) = alignment.current_anchor(change.context_focus.before[at]) {
            let ghost earlier = lines@;
            insert_ascending(&mut lines, line);
            proof {
                assert(change.context_focus.before@.contains(change.context_focus.before@[at as int]));
                assert(anchors_at(*alignment, change.context_focus, line)) by {
                    assert(alignment.is_anchor_line(
                        change.context_focus.before@[at as int],
                        line,
                    ));
                }
                assert forall|other: usize| #[trigger] lines@.contains(
                    other,
                ) implies is_focus_line(*alignment, change.context_focus, other) by {
                    if other != line {
                        assert(earlier.contains(other));
                    }
                }
                crate::plan::order::lemma_inserted_lines(
                    earlier,
                    lines@,
                    line,
                    alignment.after_lines as int,
                );
                assert forall|k: int|
                    0 <= k < change.context_focus.after@.len() implies lines@.contains(
                    #[trigger] change.context_focus.after@[k],
                ) by {
                    assert(earlier.contains(change.context_focus.after@[k]));
                }
                assert forall|k: int| 0 <= k < at + 1 implies holds_anchor(
                    *alignment,
                    #[trigger] change.context_focus.before@[k],
                    lines@,
                ) by {
                    if k < at {
                        let anchor = choose|anchor: usize| #[trigger]
                            alignment.is_anchor_line(change.context_focus.before@[k], anchor)
                                && earlier.contains(anchor);
                        assert(lines@.contains(anchor));
                    } else {
                        assert(alignment.is_anchor_line(change.context_focus.before@[k], line));
                        assert(lines@.contains(line));
                    }
                }
            }
        }
        at += 1;
    }
    lines
}

/// One more change displays what it displays, and hides nothing.
proof fn lemma_displays_push(changes: Seq<SourceChange>, change: SourceChange)
    ensures
        forall|line: usize| #[trigger]
            displays(changes.push(change), line) <==> displays(changes, line) || displayed_by(
                change,
                line,
            ),
{
    let all = changes.push(change);
    assert forall|line: usize| #[trigger] displays(all, line) <==> displays(changes, line)
        || displayed_by(change, line) by {
        if displays(all, line) {
            let k = choose|k: int| 0 <= k < all.len() && displayed_by(#[trigger] all[k], line);
            if k < changes.len() {
                assert(displayed_by(changes[k], line));
            }
        }
        if displays(changes, line) {
            let k = choose|k: int|
                0 <= k < changes.len() && displayed_by(#[trigger] changes[k], line);
            assert(displayed_by(all[k], line));
        }
        assert(all[changes.len() as int] == change);
    }
}

/// Complete each signal's context halo against the whole current file.
pub fn complete_context_halos(change: &mut AnchoredChange, alignment: &LineAlignment<'_>)
    requires
        alignment.wf(),
        old(change).fits(alignment.before_lines as int, alignment.after_lines as int),
    ensures
        final(change).fits(alignment.before_lines as int, alignment.after_lines as int),
        final(change).context_focus == old(change).context_focus,
        final(change).order == old(change).order,
        final(change).buoyancy == old(change).buoyancy,
        old(change).changes@.is_prefix_of(final(change).changes@),
        forall|k: int|
            old(change).changes@.len() <= k < final(change).changes@.len() ==> (
            #[trigger] final(change).changes@[k]) is Context,
        forall|k: int, line: usize|
            0 <= k < old(change).context_focus.after@.len() && #[trigger] in_halo(
                #[trigger] old(change).context_focus.after@[k],
                line,
                alignment.after_lines as int,
            ) ==> displays(final(change).changes@, line),
        focus_haloed(*alignment, old(change).context_focus, final(change).changes@),
        forall|line: usize| #[trigger]
            displays(final(change).changes@, line) ==> is_wanted(
                *alignment,
                old(change).context_focus,
                old(change).changes@,
                line,
            ),
{
    let signals = focus_signals(change, alignment);
    let count = alignment.after_lines;
    let mut shown = displayed_lines(&change.changes);
    let mut index: usize = 0;
    while index < signals.len()
        invariant
            alignment.wf(),
            count == alignment.after_lines,
            count < usize::MAX,
            forall|k: int|
                0 <= k < signals@.len() ==> is_line(#[trigger] signals@[k], count as int),
            index <= signals@.len(),
            ascending(shown@),
            forall|line: usize| #[trigger]
                shown@.contains(line) <==> displays(change.changes@, line),
            change.fits(alignment.before_lines as int, alignment.after_lines as int),
            change.context_focus == old(change).context_focus,
            change.order == old(change).order,
            change.buoyancy == old(change).buoyancy,
            old(change).changes@.is_prefix_of(change.changes@),
            forall|k: int|
                old(change).changes@.len() <= k < change.changes@.len() ==> (
                #[trigger] change.changes@[k]) is Context,
            forall|k: int, line: usize|
                0 <= k < index && #[trigger] in_halo(
                    #[trigger] signals@[k],
                    line,
                    count as int,
                ) ==> displays(change.changes@, line),
            forall|line: usize| #[trigger]
                signals@.contains(line) ==> is_focus_line(
                    *alignment,
                    old(change).context_focus,
                    line,
                ),
            forall|line: usize| #[trigger]
                displays(change.changes@, line) ==> is_wanted(
                    *alignment,
                    old(change).context_focus,
                    old(change).changes@,
                    line,
                ),
        decreases signals@.len() - index,
    {
        let signal = signals[index];
        assert(is_line(signals@[index as int], count as int));
        assert(signals@.contains(signal));
        let start = if signal > CONTEXT_HALO_RADIUS {
            signal - CONTEXT_HALO_RADIUS
        } else {
            1
        };
        let end = if count - signal > CONTEXT_HALO_RADIUS {
            signal + CONTEXT_HALO_RADIUS
        } else {
            count
        };
        let mut number = start;
        while number <= end
            invariant
                alignment.wf(),
                count == alignment.after_lines,
                1 <= start <= number <= end + 1,
                end <= count < usize::MAX,
                ascending(shown@),
                forall|line: usize| #[trigger]
                    shown@.contains(line) <==> displays(change.changes@, line),
                change.fits(alignment.before_lines as int, alignment.after_lines as int),
                change.context_focus == old(change).context_focus,
                change.order == old(change).order,
                change.buoyancy == old(change).buoyancy,
                forall|k: int|
                    old(change).changes@.len() <= k < change.changes@.len() ==> (
                    #[trigger] change.changes@[k]) is Context,
                old(change).changes@.is_prefix_of(change.changes@),
                forall|line: usize|
                    start <= line < number ==> #[trigger] displays(change.changes@, line),
                forall|k: int, line: usize|
                    0 <= k < index && #[trigger] in_halo(
                        #[trigger] signals@[k],
                        line,
                        count as int,
                    ) ==> displays(change.changes@, line),
                is_focus_line(*alignment, old(change).context_focus, signal),
                start == halo_start(signal),
                end <= signal + CONTEXT_HALO_RADIUS,
                forall|line: usize| #[trigger]
                    displays(change.changes@, line) ==> is_wanted(
                        *alignment,
                        old(change).context_focus,
                        old(change).changes@,
                        line,
                    ),
            decreases end + 1 - number,
        {
            if !holds(&shown, number) {
                let ghost earlier = change.changes@;
                insert_ascending(&mut shown, number);
                change.changes.push(SourceChange::Context(number));
                include_line(&mut change.coverage.after, number);
                proof {
                    lemma_displays_push(earlier, SourceChange::Context(number));
                    assert(change.changes@ == earlier.push(SourceChange::Context(number)));
                    assert(in_halo(signal, number, count as int));
                    assert(is_near(*alignment, old(change).context_focus, number));
                }
            }
            number += 1;
        }
        proof {
            assert forall|k: int, line: usize|
                0 <= k < index + 1 && #[trigger] in_halo(
                    #[trigger] signals@[k],
                    line,
                    count as int,
                ) implies displays(change.changes@, line) by {
                if k == index {
                    assert(start <= line < number);
                }
            }
        }
        index += 1;
    }
    proof {
        assert forall|k: int, line: usize|
            0 <= k < old(change).context_focus.after@.len() && #[trigger] in_halo(
                #[trigger] old(change).context_focus.after@[k],
                line,
                alignment.after_lines as int,
            ) implies displays(change.changes@, line) by {
            assert(signals@.contains(old(change).context_focus.after@[k]));
            let i = choose|i: int|
                0 <= i < signals@.len() && signals@[i] == old(change).context_focus.after@[k];
            assert(in_halo(signals@[i], line, count as int));
        }
        assert forall|signal: usize| #[trigger] signals@.contains(signal) implies haloed(
            change.changes@,
            signal,
            count as int,
        ) by {
            let i = choose|i: int| 0 <= i < signals@.len() && signals@[i] == signal;
            assert forall|line: usize| #[trigger] in_halo(signal, line, count as int) implies displays(
                change.changes@,
                line,
            ) by {
                assert(in_halo(signals@[i], line, count as int));
            }
        }
        let focus = old(change).context_focus;
        assert forall|signal: usize| #[trigger] focus.after@.contains(signal) implies haloed(
            change.changes@,
            signal,
            count as int,
        ) by {
            let k = choose|k: int| 0 <= k < focus.after@.len() && focus.after@[k] == signal;
            assert(signals@.contains(focus.after@[k]));
        }
        if count > 0 {
            assert forall|line: usize| #[trigger] focus.before@.contains(
                line,
            ) implies anchor_haloed(*alignment, change.changes@, line) by {
                let k = choose|k: int| 0 <= k < focus.before@.len() && focus.before@[k] == line;
                assert(holds_anchor(*alignment, focus.before@[k], signals@));
                let anchor = choose|anchor: usize| #[trigger]
                    alignment.is_anchor_line(line, anchor) && signals@.contains(anchor);
                assert(haloed(change.changes@, anchor, count as int));
            }
        }
    }
}

/// Some segment holds the position.
pub open spec fn in_segments(segments: Seq<Span>, position: int) -> bool {
    exists|k: int| 0 <= k < segments.len() && (#[trigger] segments[k]).has(position)
}

/// Parts of a range that hold no excluded line.
pub fn range_excluding_lines(range: Span, excluded: &Vec<usize>) -> (segments: Vec<Span>)
    requires
        ascending(excluded@),
    ensures
        forall|k: int|
            0 <= k < segments@.len() ==> range.start <= (#[trigger] segments@[k]).start
                < segments@[k].end <= range.end,
        forall|position: usize| #[trigger]
            in_segments(segments@, position as int) <==> range.has(position as int)
                && !excluded@.contains(position),
{
    let mut segments: Vec<Span> = Vec::new();
    let mut start = range.start;
    let mut index: usize = 0;
    while index < excluded.len()
        invariant
            ascending(excluded@),
            index <= excluded@.len(),
            range.start <= start,
            start <= range.end || start == range.start,
            forall|k: int|
                0 <= k < segments@.len() ==> range.start <= (#[trigger] segments@[k]).start
                    < segments@[k].end <= range.end && segments@[k].end <= start,
            forall|k: int|
                0 <= k < excluded@.len() && range.has((#[trigger] excluded@[k]) as int) ==> (k
                    < index <==> excluded@[k] < start),
            forall|position: usize| #[trigger]
                in_segments(segments@, position as int) <==> range.start <= position < start
                    && range.has(position as int) && !excluded@.contains(position),
        decreases excluded@.len() - index,
    {
        let line = excluded[index];
        let ghost earlier = segments@;
        let ghost floor = start;
        proof {
            assert(excluded@[index as int] == line);
            assert(excluded@.contains(line));
        }
        if range.contains(line) {
            if start < line {
                segments.push(Span { start, end: line });
            }
            start = line + 1;
            proof {
                assert forall|position: usize| #[trigger]
                    in_segments(segments@, position as int) <==> range.start <= position < start
                        && range.has(position as int) && !excluded@.contains(position) by {
                    lemma_segment_grown(earlier, segments@, floor, line, position as int);
                    if floor <= position < line && excluded@.contains(position) {
                        let k = choose|k: int|
                            0 <= k < excluded@.len() && excluded@[k] == position;
                        assert(range.has(excluded@[k] as int));
                        assert(k < index);
                    }
                }
                assert forall|k: int|
                    0 <= k < excluded@.len() && range.has(
                        (#[trigger] excluded@[k]) as int,
                    ) implies (k < index + 1 <==> excluded@[k] < start) by {
                    if k > index {
                        assert(excluded@[index as int] < excluded@[k]);
                    } else if k < index {
                        assert(excluded@[k] < excluded@[index as int]);
                    }
                }
            }
        }
        index += 1;
    }
    let ghost earlier = segments@;
    let ghost floor = start;
    if start < range.end {
        segments.push(Span { start, end: range.end });
    }
    proof {
        assert forall|position: usize| #[trigger]
            in_segments(segments@, position as int) <==> range.has(position as int)
                && !excluded@.contains(position) by {
            if floor < range.end {
                lemma_segment_grown(earlier, segments@, floor, range.end, position as int);
            }
            if floor <= position < range.end && excluded@.contains(position) {
                let k = choose|k: int| 0 <= k < excluded@.len() && excluded@[k] == position;
                assert(range.has(excluded@[k] as int));
                assert(k < index);
            }
        }
    }
    segments
}

/// One more segment adds its positions.
proof fn lemma_segment_grown(
    earlier: Seq<Span>,
    later: Seq<Span>,
    start: usize,
    end: usize,
    position: int,
)
    requires
        start < end ==> later == earlier.push(Span { start, end }),
        start >= end ==> later == earlier,
    ensures
        in_segments(later, position) <==> in_segments(earlier, position) || start <= position < end,
{
    if start < end {
        let all = later;
        if in_segments(all, position) {
            let k = choose|k: int| 0 <= k < all.len() && (#[trigger] all[k]).has(position);
            if k < earlier.len() {
                assert(earlier[k].has(position));
            }
        }
        if in_segments(earlier, position) {
            let k = choose|k: int| 0 <= k < earlier.len() && (#[trigger] earlier[k]).has(position);
            assert(all[k].has(position));
        }
        assert(all[earlier.len() as int] == (Span { start, end }));
    }
}

/// Old lines that stand beside displayed current lines.
fn aligned_lines(displayed: &Vec<usize>, alignment: &LineAlignment<'_>) -> (lines: Vec<usize>)
    requires
        alignment.wf(),
    ensures
        ascending(lines@),
        forall|line: usize| #[trigger]
            lines@.contains(line) ==> pairs_with(*alignment, displayed@, line),
        forall|k: int|
            0 <= k < displayed@.len() ==> has_partner_in(
                *alignment,
                lines@,
                #[trigger] displayed@[k],
            ),
{
    let mut lines: Vec<usize> = Vec::new();
    let mut index: usize = 0;
    while index < displayed.len()
        invariant
            alignment.wf(),
            index <= displayed@.len(),
            ascending(lines@),
            forall|line: usize| #[trigger]
                lines@.contains(line) ==> pairs_with(*alignment, displayed@, line),
            forall|k: int|
                0 <= k < index ==> has_partner_in(*alignment, lines@, #[trigger] displayed@[k]),
        decreases displayed@.len() - index,
    {
        let ghost earlier = lines@;
        if let Some(line) = alignment.aligned_before_line(displayed[index]) {
            insert_ascending(&mut lines, line);
            assert(alignment.pairs_rows(
                (line - 1) as usize,
                (displayed@[index as int] - 1) as usize,
            ));
            assert(lines@.contains(line));
        }
        proof {
            assert forall|k: int| 0 <= k < index + 1 implies has_partner_in(
                *alignment,
                lines@,
                #[trigger] displayed@[k],
            ) by {
                if k < index && displayed@[k] > 0 && exists|before: usize| #[trigger]
                    alignment.pairs_rows(before, (displayed@[k] - 1) as usize) {
                    let line = choose|line: usize| #[trigger]
                        earlier.contains(line) && line > 0 && alignment.pairs_rows(
                            (line - 1) as usize,
                            (displayed@[k] - 1) as usize,
                        );
                    assert(lines@.contains(line));
                }
            }
        }
        index += 1;
    }
    lines
}

/// The old line is joined to a displayed line.
pub open spec fn pairs_with(
    alignment: LineAlignment<'_>,
    displayed: Seq<usize>,
    line: usize,
) -> bool {
    exists|k: int|
        0 <= k < displayed.len() && (#[trigger] displayed[k]) > 0 && line > 0
            && alignment.pairs_rows((line - 1) as usize, (displayed[k] - 1) as usize)
}

/// Where an old line is joined to the displayed line, the list holds one.
pub open spec fn has_partner_in(
    alignment: LineAlignment<'_>,
    lines: Seq<usize>,
    displayed: usize,
) -> bool {
    displayed > 0 && (exists|before: usize| #[trigger]
        alignment.pairs_rows(before, (displayed - 1) as usize)) ==> exists|line: usize| #[trigger]
        lines.contains(line) && line > 0 && alignment.pairs_rows(
            (line - 1) as usize,
            (displayed - 1) as usize,
        )
}

/// Old lines that an elision need not fold: those beside displayed lines, and where both sides
/// are equally long, those at the same offset.
fn excluded_before(
    coverage: &LineCoverage,
    before_displayed: &Vec<usize>,
    after_displayed: &Vec<usize>,
) -> (excluded: Vec<usize>)
    requires
        ascending(before_displayed@),
    ensures
        ascending(excluded@),
        forall|line: usize| #[trigger]
            excluded@.contains(line) <==> is_beside(
                *coverage,
                before_displayed@,
                after_displayed@,
                line,
            ),
{
    let mut excluded: Vec<usize> = Vec::new();
    assert(before_displayed@.take(0) =~= Seq::<usize>::empty());
    let mut index: usize = 0;
    while index < before_displayed.len()
        invariant
            index <= before_displayed@.len(),
            ascending(excluded@),
            forall|line: usize| #[trigger]
                excluded@.contains(line) <==> before_displayed@.take(index as int).contains(line),
        decreases before_displayed@.len() - index,
    {
        insert_ascending(&mut excluded, before_displayed[index]);
        proof {
            lemma_take_contains(before_displayed@, index as int);
        }
        index += 1;
    }
    assert(before_displayed@.take(index as int) =~= before_displayed@);
    if let (Some(before), Some(after)) = (coverage.before, coverage.after) {
        if before.start <= before.end && before.len() == after.len() {
            let mut at: usize = 0;
            while at < after_displayed.len()
                invariant
                    before.start <= before.end,
                    before.end - before.start == if after.start <= after.end {
                        after.end - after.start
                    } else {
                        0
                    },
                    at <= after_displayed@.len(),
                    ascending(excluded@),
                    forall|other: usize| #[trigger]
                        excluded@.contains(other) <==> before_displayed@.contains(other)
                            || shifted_in(
                            after_displayed@.take(at as int),
                            after,
                            before.start as int,
                            other,
                        ),
                decreases after_displayed@.len() - at,
            {
                let line = after_displayed[at];
                let ghost earlier = excluded@;
                if after.start <= line && line < after.end {
                    insert_ascending(&mut excluded, before.start + (line - after.start));
                }
                proof {
                    assert forall|other: usize| #[trigger]
                        excluded@.contains(other) <==> before_displayed@.contains(other)
                            || shifted_in(
                            after_displayed@.take(at + 1),
                            after,
                            before.start as int,
                            other,
                        ) by {
                        lemma_shifted_more(
                            after_displayed@,
                            at as int,
                            after,
                            before.start as int,
                            other,
                        );
                        assert(earlier.contains(other) <==> before_displayed@.contains(other)
                            || shifted_in(
                            after_displayed@.take(at as int),
                            after,
                            before.start as int,
                            other,
                        ));
                    }
                }
                at += 1;
            }
            assert(after_displayed@.take(at as int) =~= after_displayed@);
        }
    }
    excluded
}

/// One more value.
pub proof fn lemma_take_contains(values: Seq<usize>, index: int)
    requires
        0 <= index < values.len(),
    ensures
        forall|value: usize| #[trigger]
            values.take(index + 1).contains(value) <==> values.take(index).contains(value) || value
                == values[index],
{
    let shorter = values.take(index);
    let longer = values.take(index + 1);
    assert(longer[index] == values[index]);
    assert forall|value: usize| #[trigger] longer.contains(value) <==> shorter.contains(value)
        || value == values[index] by {
        if longer.contains(value) {
            let k = choose|k: int| 0 <= k < longer.len() && longer[k] == value;
            if k < index {
                assert(shorter[k] == value);
            }
        }
        if shorter.contains(value) {
            let k = choose|k: int| 0 <= k < shorter.len() && shorter[k] == value;
            assert(longer[k] == value);
        }
    }
}

/// One more displayed line.
proof fn lemma_shifted_more(
    displayed: Seq<usize>,
    index: int,
    after: Span,
    start: int,
    line: usize,
)
    requires
        0 <= index < displayed.len(),
    ensures
        shifted_in(displayed.take(index + 1), after, start, line) <==> shifted_in(
            displayed.take(index),
            after,
            start,
            line,
        ) || (after.has(displayed[index] as int) && line == start + (displayed[index]
            - after.start)),
{
    let shorter = displayed.take(index);
    let longer = displayed.take(index + 1);
    assert(longer[index] == displayed[index]);
    if shifted_in(longer, after, start, line) {
        let k = choose|k: int|
            0 <= k < longer.len() && after.has((#[trigger] longer[k]) as int) && line == start + (
            longer[k] - after.start);
        if k < index {
            assert(shorter[k] == longer[k]);
        }
    }
    if shifted_in(shorter, after, start, line) {
        let k = choose|k: int|
            0 <= k < shorter.len() && after.has((#[trigger] shorter[k]) as int) && line == start + (
            shorter[k] - after.start);
        assert(longer[k] == shorter[k]);
    }
}

/// No elision folds a displayed current line.
pub open spec fn folds_no_displayed(changes: Seq<SourceChange>, displayed: Seq<usize>) -> bool {
    forall|k: int, line: usize|
        0 <= k < changes.len() && displayed.contains(line) ==> !#[trigger] folds_line(
            changes[k],
            line,
        )
}

/// The change folds the current line.
pub open spec fn folds_line(change: SourceChange, line: usize) -> bool {
    change matches SourceChange::Elision(coverage) && (coverage.after matches Some(lines)
        && lines.has(line as int))
}

/// Displayed context replaces, rather than overlaps, any earlier folded coverage.
pub fn trim_elisions_behind_context(
    changes: Vec<SourceChange>,
    before_displayed: &Vec<usize>,
    after_displayed: &Vec<usize>,
    Ghost(before_count): Ghost<int>,
    Ghost(after_count): Ghost<int>,
) -> (trimmed: Vec<SourceChange>)
    requires
        changes_fit(changes@, before_count, after_count),
        ascending(before_displayed@),
        ascending(after_displayed@),
    ensures
        changes_fit(trimmed@, before_count, after_count),
        forall|k: int|
            0 <= k < changes@.len() && !((#[trigger] changes@[k]) is Elision)
                ==> trimmed@.contains(changes@[k]),
        forall|k: int|
            0 <= k < trimmed@.len() && !((#[trigger] trimmed@[k]) is Elision)
                ==> changes@.contains(trimmed@[k]),
        folds_no_displayed(trimmed@, after_displayed@),
        forall|claim: Claim| #[trigger] tally(trimmed@, claim) == tally(changes@, claim),
        forall|line: usize| #[trigger]
            folded_after(trimmed@, line) <==> folded_after(changes@, line)
                && !after_displayed@.contains(line),
        forall|line: usize| #[trigger]
            folded_before(trimmed@, line) <==> still_folded(
                changes@,
                before_displayed@,
                after_displayed@,
                line,
            ),
{
    let ghost whole = changes@;
    let mut pending = reversed(changes);
    let mut trimmed: Vec<SourceChange> = Vec::new();
    while pending.len() > 0
        invariant
            changes_fit(whole, before_count, after_count),
            ascending(before_displayed@),
            ascending(after_displayed@),
            pending@.len() <= whole.len(),
            forall|k: int|
                0 <= k < pending@.len() ==> (#[trigger] pending@[k]) == whole[whole.len() - 1 - k],
            changes_fit(trimmed@, before_count, after_count),
            forall|k: int|
                0 <= k < whole.len() - pending@.len() && !((#[trigger] whole[k]) is Elision)
                    ==> trimmed@.contains(whole[k]),
            forall|k: int|
                0 <= k < trimmed@.len() && !((#[trigger] trimmed@[k]) is Elision)
                    ==> whole.contains(trimmed@[k]),
            folds_no_displayed(trimmed@, after_displayed@),
            forall|claim: Claim| #[trigger]
                tally(trimmed@, claim) == tally(whole.take(whole.len() - pending@.len()), claim),
            forall|line: usize| #[trigger]
                folded_after(trimmed@, line) <==> folded_after(
                    whole.take(whole.len() - pending@.len()),
                    line,
                ) && !after_displayed@.contains(line),
            forall|line: usize| #[trigger]
                folded_before(trimmed@, line) <==> still_folded(
                    whole.take(whole.len() - pending@.len()),
                    before_displayed@,
                    after_displayed@,
                    line,
                ),
        decreases pending@.len(),
    {
        let ghost at = whole.len() - pending@.len();
        let ghost earlier = trimmed@;
        let change = pending.pop().unwrap();
        assert(change == whole[at as int]);
        assert(change_fits(whole[at as int], before_count, after_count));
        match change {
            SourceChange::Elision(coverage) => {
                append_trimmed(
                    &mut trimmed,
                    &coverage,
                    before_displayed,
                    after_displayed,
                    Ghost(before_count),
                    Ghost(after_count),
                );
                proof {
                    assert forall|k: int|
                        0 <= k < trimmed@.len() && !((
                        #[trigger] trimmed@[k]) is Elision) implies whole.contains(
                        trimmed@[k],
                    ) by {
                        assert(k < earlier.len());
                        assert(trimmed@[k] == earlier[k]);
                    }
                }
            },
            other => {
                trimmed.push(other);
                assert(trimmed@[earlier.len() as int] == whole[at as int]);
                assert(whole.contains(whole[at as int]));
            },
        }
        proof {
            lemma_folded_take(whole, at as int, before_displayed@, after_displayed@);
            if !(whole[at as int] is Elision) {
                lemma_folded_push(earlier, whole[at as int]);
                assert(trimmed@ =~= earlier.push(whole[at as int]));
            }
            assert forall|claim: Claim| #[trigger] tally(trimmed@, claim) == tally(
                whole.take(at + 1),
                claim,
            ) by {
                let shorter = whole.take(at as int);
                assert(tally(earlier, claim) == tally(shorter, claim));
                assert(whole.take(at + 1) =~= shorter.push(whole[at as int]));
                lemma_tally_push(shorter, whole[at as int], claim);
                if whole[at as int] is Elision {
                    let added = trimmed@.skip(earlier.len() as int);
                    assert forall|k: int| 0 <= k < added.len() implies (
                    #[trigger] added[k]) is Context || added[k] is Elision by {
                        assert(added[k] == trimmed@[earlier.len() + k]);
                    }
                    lemma_tally_plain(added, claim);
                    assert(trimmed@ =~= earlier + added);
                    lemma_total_join(earlier, added, change_weight(claim));
                } else {
                    assert(trimmed@ =~= earlier.push(whole[at as int]));
                    lemma_tally_push(earlier, whole[at as int], claim);
                }
            }
            assert forall|k: int|
                0 <= k < at + 1 && !((#[trigger] whole[k]) is Elision) implies trimmed@.contains(
                whole[k],
            ) by {
                if k < at {
                    let i = choose|i: int| 0 <= i < earlier.len() && earlier[i] == whole[k];
                    assert(trimmed@[i] == earlier[i]);
                }
            }
        }
    }
    assert(whole.take(whole.len() as int) =~= whole);
    trimmed
}

/// Append what an elision still folds.
fn append_trimmed(
    trimmed: &mut Vec<SourceChange>,
    coverage: &LineCoverage,
    before_displayed: &Vec<usize>,
    after_displayed: &Vec<usize>,
    Ghost(before_count): Ghost<int>,
    Ghost(after_count): Ghost<int>,
)
    requires
        changes_fit(old(trimmed)@, before_count, after_count),
        change_fits(SourceChange::Elision(*coverage), before_count, after_count),
        ascending(before_displayed@),
        ascending(after_displayed@),
        folds_no_displayed(old(trimmed)@, after_displayed@),
    ensures
        changes_fit(final(trimmed)@, before_count, after_count),
        old(trimmed)@.is_prefix_of(final(trimmed)@),
        forall|k: int|
            old(trimmed)@.len() <= k < final(trimmed)@.len() ==> (
            #[trigger] final(trimmed)@[k]) is Elision,
        folds_no_displayed(final(trimmed)@, after_displayed@),
        forall|line: usize| #[trigger]
            folded_after(final(trimmed)@, line) <==> folded_after(old(trimmed)@, line) || (
            coverage.after is Some && coverage.after->0.has(line as int)
                && !after_displayed@.contains(line)),
        forall|line: usize| #[trigger]
            folded_before(final(trimmed)@, line) <==> folded_before(old(trimmed)@, line) || (
            coverage.before is Some && coverage.before->0.has(line as int) && !is_beside(
                *coverage,
                before_displayed@,
                after_displayed@,
                line,
            )),
{
    let excluded = excluded_before(coverage, before_displayed, after_displayed);
    let before = match coverage.before {
        Some(range) => range_excluding_lines(range, &excluded),
        None => Vec::new(),
    };
    let after = match coverage.after {
        Some(range) => range_excluding_lines(range, after_displayed),
        None => Vec::new(),
    };
    let mut index: usize = 0;
    while index < before.len() || index < after.len()
        invariant
            change_fits(SourceChange::Elision(*coverage), before_count, after_count),
            changes_fit(trimmed@, before_count, after_count),
            old(trimmed)@.is_prefix_of(trimmed@),
            forall|k: int|
                old(trimmed)@.len() <= k < trimmed@.len() ==> (#[trigger] trimmed@[k]) is Elision,
            forall|k: int|
                0 <= k < before@.len() ==> coverage.before is Some && coverage.before->0.start <= (
                #[trigger] before@[k]).start < before@[k].end <= coverage.before->0.end,
            forall|k: int|
                0 <= k < after@.len() ==> coverage.after is Some && coverage.after->0.start <= (
                #[trigger] after@[k]).start < after@[k].end <= coverage.after->0.end,
            forall|line: usize|
                after_displayed@.contains(line) ==> !#[trigger] in_segments(
                    after@,
                    line as int,
                ),
            folds_no_displayed(trimmed@, after_displayed@),
            index <= before@.len() || index <= after@.len(),
            forall|line: usize| #[trigger]
                folded_after(trimmed@, line) <==> folded_after(old(trimmed)@, line) || in_first(
                    after@,
                    index as int,
                    line as int,
                ),
            forall|line: usize| #[trigger]
                folded_before(trimmed@, line) <==> folded_before(old(trimmed)@, line) || in_first(
                    before@,
                    index as int,
                    line as int,
                ),
        decreases before@.len() + after@.len() - index,
    {
        let old_part = if index < before.len() {
            Some(before[index])
        } else {
            None
        };
        let new_part = if index < after.len() {
            Some(after[index])
        } else {
            None
        };
        let ghost earlier = trimmed@;
        let change = SourceChange::Elision(LineCoverage { before: old_part, after: new_part });
        proof {
            assert(change_fits(change, before_count, after_count));
            assert forall|line: usize| after_displayed@.contains(line) implies !folds_line(
                change,
                line,
            ) by {
                assert(!in_segments(after@, line as int));
                if folds_line(change, line) {
                    assert(after@[index as int].has(line as int));
                }
            }
        }
        trimmed.push(change);
        proof {
            lemma_folded_push(earlier, change);
            assert(trimmed@ =~= earlier.push(change));
            lemma_first_more(after@, index as int);
            lemma_first_more(before@, index as int);
            assert forall|k: int, line: usize|
                0 <= k < trimmed@.len() && after_displayed@.contains(
                    line,
                ) implies !#[trigger] folds_line(trimmed@[k], line) by {
                if k < earlier.len() {
                    assert(trimmed@[k] == earlier[k]);
                }
            }
        }
        index += 1;
    }
    proof {
        assert forall|line: usize| in_first(after@, index as int, line as int) <==> in_segments(
            after@,
            line as int,
        ) by {
            lemma_first_all(after@, index as int, line as int);
        }
        assert forall|line: usize| in_first(before@, index as int, line as int) <==> in_segments(
            before@,
            line as int,
        ) by {
            lemma_first_all(before@, index as int, line as int);
        }
        assert forall|line: usize| #[trigger]
            folded_after(trimmed@, line) <==> folded_after(old(trimmed)@, line) || (
            coverage.after is Some && coverage.after->0.has(line as int)
                && !after_displayed@.contains(line)) by {
            assert(in_first(after@, index as int, line as int) <==> in_segments(
                after@,
                line as int,
            ));
            if coverage.after is None {
                assert(after@.len() == 0);
            }
        }
        assert forall|line: usize| #[trigger]
            folded_before(trimmed@, line) <==> folded_before(old(trimmed)@, line) || (
            coverage.before is Some && coverage.before->0.has(line as int) && !is_beside(
                *coverage,
                before_displayed@,
                after_displayed@,
                line,
            )) by {
            assert(in_first(before@, index as int, line as int) <==> in_segments(
                before@,
                line as int,
            ));
            if coverage.before is None {
                assert(before@.len() == 0);
            }
            assert(excluded@.contains(line) <==> is_beside(
                *coverage,
                before_displayed@,
                after_displayed@,
                line,
            ));
        }
    }
}

/// One of the first segments holds the position.
spec fn in_first(segments: Seq<Span>, count: int, position: int) -> bool {
    exists|k: int|
        0 <= k < count && k < segments.len() && (#[trigger] segments[k]).has(position)
}

/// One more segment.
proof fn lemma_first_more(segments: Seq<Span>, count: int)
    requires
        0 <= count,
    ensures
        forall|position: int| #[trigger]
            in_first(segments, count + 1, position) <==> in_first(segments, count, position) || (
            count < segments.len() && segments[count].has(position)),
{
    assert forall|position: int| #[trigger]
        in_first(segments, count + 1, position) <==> in_first(segments, count, position) || (count
            < segments.len() && segments[count].has(position)) by {
        if in_first(segments, count + 1, position) {
            let k = choose|k: int|
                0 <= k < count + 1 && k < segments.len() && (#[trigger] segments[k]).has(position);
            if k < count {
                assert(segments[k].has(position));
            }
        }
        if in_first(segments, count, position) {
            let k = choose|k: int|
                0 <= k < count && k < segments.len() && (#[trigger] segments[k]).has(position);
            assert(segments[k].has(position));
        }
    }
}

/// All segments.
proof fn lemma_first_all(segments: Seq<Span>, count: int, position: int)
    requires
        segments.len() <= count,
    ensures
        in_first(segments, count, position) <==> in_segments(segments, position),
{
    if in_segments(segments, position) {
        let k = choose|k: int| 0 <= k < segments.len() && (#[trigger] segments[k]).has(position);
        assert(segments[k].has(position));
    }
}

/// Some elision folds the current line.
pub open spec fn folded_after(changes: Seq<SourceChange>, line: usize) -> bool {
    exists|k: int| 0 <= k < changes.len() && folds_line(#[trigger] changes[k], line)
}

/// The change folds the old line.
pub open spec fn folds_old_line(change: SourceChange, line: usize) -> bool {
    change matches SourceChange::Elision(coverage) && (coverage.before matches Some(lines)
        && lines.has(line as int))
}

/// Some elision folds the old line.
pub open spec fn folded_before(changes: Seq<SourceChange>, line: usize) -> bool {
    exists|k: int| 0 <= k < changes.len() && folds_old_line(#[trigger] changes[k], line)
}

/// The old line stands beside a displayed line, or, where both sides of the folded lines are
/// equally long, at the same offset as one.
pub open spec fn is_beside(
    coverage: LineCoverage,
    before_displayed: Seq<usize>,
    after_displayed: Seq<usize>,
    line: usize,
) -> bool {
    ||| before_displayed.contains(line)
    ||| (coverage.before matches Some(before) && coverage.after matches Some(after) && before.start
        <= before.end && before.end - before.start == (if after.start <= after.end {
        after.end - after.start
    } else {
        0
    }) && shifted_in(after_displayed, after, before.start as int, line))
}

/// Some displayed line of the range stands at the offset of the old line.
pub open spec fn shifted_in(displayed: Seq<usize>, after: Span, start: int, line: usize) -> bool {
    exists|k: int|
        0 <= k < displayed.len() && after.has((#[trigger] displayed[k]) as int) && line == start + (
        displayed[k] - after.start)
}

/// An elision folds the old line, which does not stand beside what is displayed of it.
pub open spec fn still_folded(
    changes: Seq<SourceChange>,
    before_displayed: Seq<usize>,
    after_displayed: Seq<usize>,
    line: usize,
) -> bool {
    exists|k: int|
        0 <= k < changes.len() && folds_old_line(#[trigger] changes[k], line) && !is_beside(
            changes[k]->Elision_0,
            before_displayed,
            after_displayed,
            line,
        )
}

/// One more change folds what it folds.
proof fn lemma_folded_push(changes: Seq<SourceChange>, change: SourceChange)
    ensures
        forall|line: usize| #[trigger]
            folded_after(changes.push(change), line) <==> folded_after(changes, line) || folds_line(
                change,
                line,
            ),
        forall|line: usize| #[trigger]
            folded_before(changes.push(change), line) <==> folded_before(changes, line)
                || folds_old_line(change, line),
{
    let all = changes.push(change);
    assert(all[changes.len() as int] == change);
    assert forall|line: usize| #[trigger] folded_after(all, line) <==> folded_after(changes, line)
        || folds_line(change, line) by {
        if folded_after(all, line) {
            let k = choose|k: int| 0 <= k < all.len() && folds_line(#[trigger] all[k], line);
            if k < changes.len() {
                assert(folds_line(changes[k], line));
            }
        }
        if folded_after(changes, line) {
            let k = choose|k: int|
                0 <= k < changes.len() && folds_line(#[trigger] changes[k], line);
            assert(folds_line(all[k], line));
        }
    }
    assert forall|line: usize| #[trigger] folded_before(all, line) <==> folded_before(changes, line)
        || folds_old_line(change, line) by {
        if folded_before(all, line) {
            let k = choose|k: int| 0 <= k < all.len() && folds_old_line(#[trigger] all[k], line);
            if k < changes.len() {
                assert(folds_old_line(changes[k], line));
            }
        }
        if folded_before(changes, line) {
            let k = choose|k: int|
                0 <= k < changes.len() && folds_old_line(#[trigger] changes[k], line);
            assert(folds_old_line(all[k], line));
        }
    }
}

/// What one more of the changes folds.
proof fn lemma_folded_take(
    changes: Seq<SourceChange>,
    at: int,
    before_displayed: Seq<usize>,
    after_displayed: Seq<usize>,
)
    requires
        0 <= at < changes.len(),
    ensures
        forall|line: usize| #[trigger]
            folded_after(changes.take(at + 1), line) <==> folded_after(changes.take(at), line)
                || folds_line(changes[at], line),
        forall|line: usize| #[trigger]
            still_folded(changes.take(at + 1), before_displayed, after_displayed, line)
                <==> still_folded(changes.take(at), before_displayed, after_displayed, line) || (
            folds_old_line(changes[at], line) && !is_beside(
                changes[at]->Elision_0,
                before_displayed,
                after_displayed,
                line,
            )),
{
    let shorter = changes.take(at);
    let longer = changes.take(at + 1);
    assert(longer =~= shorter.push(changes[at]));
    lemma_folded_push(shorter, changes[at]);
    assert forall|line: usize| #[trigger]
        still_folded(longer, before_displayed, after_displayed, line) <==> still_folded(
            shorter,
            before_displayed,
            after_displayed,
            line,
        ) || (folds_old_line(changes[at], line) && !is_beside(
            changes[at]->Elision_0,
            before_displayed,
            after_displayed,
            line,
        )) by {
        if still_folded(longer, before_displayed, after_displayed, line) {
            let k = choose|k: int|
                0 <= k < longer.len() && folds_old_line(#[trigger] longer[k], line) && !is_beside(
                    longer[k]->Elision_0,
                    before_displayed,
                    after_displayed,
                    line,
                );
            if k < at {
                assert(folds_old_line(shorter[k], line));
            }
        }
        if still_folded(shorter, before_displayed, after_displayed, line) {
            let k = choose|k: int|
                0 <= k < shorter.len() && folds_old_line(#[trigger] shorter[k], line) && !is_beside(
                    shorter[k]->Elision_0,
                    before_displayed,
                    after_displayed,
                    line,
                );
            assert(folds_old_line(longer[k], line));
        }
        assert(longer[at] == changes[at]);
    }
}

/// Whether an elision already folds a line of the range.
fn folds_part(
    changes: &Vec<SourceChange>,
    end: usize,
    range: &Span,
    Ghost(before_count): Ghost<int>,
    Ghost(after_count): Ghost<int>,
) -> (found: bool)
    requires
        end <= changes@.len(),
        range.start < range.end,
        changes_fit(changes@, before_count, after_count),
    ensures
        found == folds_any(changes@.take(end as int), range.start as int, range.end as int),
{
    let mut index: usize = 0;
    while index < end
        invariant
            index <= end <= changes@.len(),
            range.start < range.end,
            changes_fit(changes@, before_count, after_count),
            forall|k: int, line: usize|
                0 <= k < index && range.has(line as int) ==> !#[trigger] folds_line(
                    changes@[k],
                    line,
                ),
        decreases end - index,
    {
        if let SourceChange::Elision(coverage) = &changes[index] {
            if let Some(lines) = coverage.after {
                assert(change_fits(changes@[index as int], before_count, after_count));
                if ranges_overlap(&lines, range) {
                    proof {
                        let line = if lines.start >= range.start {
                            lines.start
                        } else {
                            range.start
                        };
                        assert(folds_line(changes@.take(end as int)[index as int], line));
                    }
                    return true;
                }
            }
        }
        index += 1;
    }
    assert forall|k: int, line: usize|
        0 <= k < end && range.has(line as int) implies !#[trigger] folds_line(
        changes@.take(end as int)[k],
        line,
    ) by {
        assert(!folds_line(changes@[k], line));
    }
    false
}

/// Some elision folds a line of the range.
pub open spec fn folds_any(changes: Seq<SourceChange>, start: int, end: int) -> bool {
    exists|k: int, line: usize|
        0 <= k < changes.len() && start <= line < end && #[trigger] folds_line(changes[k], line)
}

/// Two displayed lines with lines between them, none of which is displayed.
pub open spec fn is_display_gap(changes: Seq<SourceChange>, last: usize, next: usize) -> bool {
    &&& displays(changes, last)
    &&& displays(changes, next)
    &&& last + 1 < next
    &&& forall|line: usize| last < line < next ==> !#[trigger] displays(changes, line)
}

/// The lines between two lines are folded somewhere, or are a single line that is shown.
pub open spec fn explains(changes: Seq<SourceChange>, last: usize, next: usize) -> bool {
    folds_any(changes, last + 1, next as int) || (next == last + 2 && displays(
        changes,
        (last + 1) as usize,
    ))
}

proof fn lemma_folds_more(
    earlier: Seq<SourceChange>,
    later: Seq<SourceChange>,
    start: int,
    end: int,
)
    requires
        earlier.len() <= later.len(),
        forall|k: int| 0 <= k < earlier.len() ==> later[k] == #[trigger] earlier[k],
        folds_any(earlier, start, end),
    ensures
        folds_any(later, start, end),
{
    let (k, line) = choose|k: int, line: usize|
        0 <= k < earlier.len() && start <= line < end && #[trigger] folds_line(earlier[k], line);
    assert(folds_line(later[k], line));
}

proof fn lemma_explains_more(
    earlier: Seq<SourceChange>,
    later: Seq<SourceChange>,
    last: usize,
    next: usize,
)
    requires
        earlier.len() <= later.len(),
        forall|k: int| 0 <= k < earlier.len() ==> later[k] == #[trigger] earlier[k],
        explains(earlier, last, next),
    ensures
        explains(later, last, next),
{
    if folds_any(earlier, last + 1, next as int) {
        lemma_folds_more(earlier, later, last + 1, next as int);
    } else {
        let line = (last + 1) as usize;
        let k = choose|k: int| 0 <= k < earlier.len() && displayed_by(#[trigger] earlier[k], line);
        assert(displayed_by(later[k], line));
    }
}

/// Every gap between displayed lines is folded somewhere, or is a single line that is shown.
pub open spec fn explains_gaps(earlier: Seq<SourceChange>, later: Seq<SourceChange>) -> bool {
    forall|last: usize, next: usize| #[trigger]
        is_display_gap(earlier, last, next) ==> explains(later, last, next)
}

/// The line lies between two displayed lines that have no displayed line between them.
pub open spec fn in_display_gap(changes: Seq<SourceChange>, line: usize) -> bool {
    exists|last: usize, next: usize| #[trigger]
        is_display_gap(changes, last, next) && last < line < next
}

/// Hierarchy lines added outside a producer's range still explain the omitted interval.
pub fn complete_display_gaps(change: AnchoredChange, alignment: &LineAlignment<'_>) -> (completed:
    AnchoredChange)
    requires
        alignment.wf(),
        change.fits(alignment.before_lines as int, alignment.after_lines as int),
    ensures
        completed.fits(alignment.before_lines as int, alignment.after_lines as int),
        completed.order == change.order,
        completed.buoyancy == change.buoyancy,
        keeps_review(change.changes@, completed.changes@),
        forall|line: usize|
            displays(change.changes@, line) ==> #[trigger] displays(completed.changes@, line),
        explains_gaps(change.changes@, completed.changes@),
        forall|line: usize| #[trigger]
            displays(completed.changes@, line) ==> displays(change.changes@, line) || (1 < line
                < usize::MAX && displays(change.changes@, (line - 1) as usize) && displays(
                change.changes@,
                (line + 1) as usize,
            )),
        completed.context_focus == change.context_focus,
        forall|line: usize| #[trigger]
            folded_after(completed.changes@, line) ==> !displays(change.changes@, line) && (
            folded_after(change.changes@, line) || in_display_gap(change.changes@, line)),
        forall|line: usize|
            folded_after(change.changes@, line) && !displays(change.changes@, line)
                ==> #[trigger] folded_after(completed.changes@, line),
{
    let ghost before_count = alignment.before_lines as int;
    let ghost after_count = alignment.after_lines as int;
    let ghost original = change.changes@;
    let AnchoredChange { buoyancy, coverage, changes, context_focus, order, merge_window } = change;
    let mut coverage = coverage;
    let displayed = displayed_lines(&changes);
    let before_displayed = aligned_lines(&displayed, alignment);
    let mut changes = trim_elisions_behind_context(
        changes,
        &before_displayed,
        &displayed,
        Ghost(before_count),
        Ghost(after_count),
    );
    let folded = changes.len();
    proof {
        lemma_keeps_members(original, changes@);
        assert forall|line: usize| displays(original, line) implies #[trigger] displays(
            changes@,
            line,
        ) by {
            let k = choose|k: int|
                0 <= k < original.len() && displayed_by(#[trigger] original[k], line);
            assert(changes@.contains(original[k]));
            let i = choose|i: int| 0 <= i < changes@.len() && changes@[i] == original[k];
            assert(displayed_by(changes@[i], line));
        }
        assert forall|line: usize| #[trigger] displays(changes@, line) implies displays(
            original,
            line,
        ) by {
            let k = choose|k: int|
                0 <= k < changes@.len() && displayed_by(#[trigger] changes@[k], line);
            assert(original.contains(changes@[k]));
            let i = choose|i: int| 0 <= i < original.len() && original[i] == changes@[k];
            assert(displayed_by(original[i], line));
        }
        assert forall|line: usize| #[trigger] folded_after(changes@, line) implies !displays(
            original,
            line,
        ) && (folded_after(original, line) || in_display_gap(original, line)) by {
            assert(!displayed@.contains(line));
        }
        assert forall|line: usize|
            folded_after(original, line) && !displays(original, line) implies
            #[trigger] folded_after(changes@, line) by {
            assert(!displayed@.contains(line));
        }
        assert forall|k: int| 0 <= k < displayed@.len() implies is_line(
            #[trigger] displayed@[k],
            after_count,
        ) by {
            assert(displayed@.contains(displayed@[k]));
            lemma_displayed_exists(original, displayed@[k], before_count, after_count);
        }
    }
    let mut index: usize = 1;
    while index < displayed.len()
        invariant
            alignment.wf(),
            before_count == alignment.before_lines,
            after_count == alignment.after_lines,
            after_count < usize::MAX,
            1 <= index,
            ascending(displayed@),
            forall|k: int|
                0 <= k < displayed@.len() ==> is_line(#[trigger] displayed@[k], after_count),
            folded <= changes@.len(),
            changes_fit(changes@, before_count, after_count),
            coverage_fits(coverage, before_count, after_count),
            keeps_review(original, changes@),
            forall|line: usize|
                displays(original, line) ==> #[trigger] displays(changes@, line),
            forall|line: usize| displayed@.contains(line) <==> displays(original, line),
            forall|line: usize| #[trigger]
                displays(changes@, line) ==> displays(original, line) || (1 < line < usize::MAX
                    && displays(original, (line - 1) as usize) && displays(
                    original,
                    (line + 1) as usize,
                )),
            forall|line: usize| #[trigger]
                folded_after(changes@, line) ==> !displays(original, line) && (folded_after(
                    original,
                    line,
                ) || in_display_gap(original, line)),
            forall|line: usize|
                folded_after(original, line) && !displays(original, line)
                    ==> #[trigger] folded_after(changes@, line),
            forall|k: int, l: int|
                0 <= k && l == k + 1 && l < index && l < displayed@.len() && (
                #[trigger] displayed@[k]) + 1 < (#[trigger] displayed@[l]) ==> explains(
                    changes@,
                    displayed@[k],
                    displayed@[l],
                ),
        decreases displayed@.len() - index,
    {
        let ghost fewer = changes@;
        let last = displayed[index - 1];
        let next = displayed[index];
        proof {
            assert(displayed@[index - 1] < displayed@[index as int]);
            assert(is_line(displayed@[index - 1], after_count));
            assert(is_line(displayed@[index as int], after_count));
        }
        let omitted = Span { start: last + 1, end: next };
        if !omitted.is_empty() && !folds_part(
            &changes,
            folded,
            &omitted,
            Ghost(before_count),
            Ghost(after_count),
        ) {
            let ghost earlier = changes@;
            if omitted.len() == 1 {
                changes.push(SourceChange::Context(omitted.start));
                include_line(&mut coverage.after, omitted.start);
            } else {
                changes.push(
                    SourceChange::Elision(LineCoverage { before: None, after: Some(omitted) }),
                );
            }
            proof {
                let added = changes@[earlier.len() as int];
                assert(changes@ =~= earlier.push(added));
                lemma_displays_push(earlier, added);
                lemma_folded_push(earlier, added);
                assert(displayed@.contains(displayed@[index - 1]));
                assert(displayed@.contains(displayed@[index as int]));
                assert(is_display_gap(original, last, next)) by {
                    assert forall|line: usize| last < line < next implies !#[trigger] displays(
                        original,
                        line,
                    ) by {
                        if displays(original, line) {
                            assert(displayed@.contains(line));
                            let k = choose|k: int| 0 <= k < displayed@.len() && displayed@[k] == line;
                            if k < index - 1 {
                                assert(displayed@[k] < displayed@[index - 1]);
                            } else if k > index {
                                assert(displayed@[index as int] < displayed@[k]);
                            }
                        }
                    }
                }
                assert forall|line: usize| folds_line(added, line) implies !displays(original, line)
                    && in_display_gap(original, line) by {
                    assert(last < line < next);
                }
                assert forall|k: int|
                    0 <= k < earlier.len() && !((#[trigger] earlier[k]) is Context) && !(
                    earlier[k] is Elision) implies changes@.contains(earlier[k]) by {
                    assert(changes@[k] == earlier[k]);
                }
                assert forall|claim: Claim| #[trigger] tally(changes@, claim) == tally(
                    earlier,
                    claim,
                ) by {
                    lemma_tally_push(earlier, added, claim);
                }
                lemma_keeps_members(earlier, changes@);
                lemma_keeps_chain(original, earlier, changes@);
            }
        }
        proof {
            if !omitted.empty() && changes@.len() == fewer.len() {
                lemma_folds_more(fewer.take(folded as int), fewer, last + 1, next as int);
            } else if !omitted.empty() {
                let added = changes@[fewer.len() as int];
                if omitted.end - omitted.start == 1 {
                    assert(displayed_by(added, omitted.start));
                } else {
                    assert(folds_line(changes@[fewer.len() as int], omitted.start));
                }
            }
            assert forall|k: int, l: int|
                0 <= k && l == k + 1 && l < index + 1 && l < displayed@.len() && (
                #[trigger] displayed@[k]) + 1 < (#[trigger] displayed@[l]) implies explains(
                changes@,
                displayed@[k],
                displayed@[l],
            ) by {
                if l < index {
                    assert(explains(fewer, displayed@[k], displayed@[l]));
                    lemma_explains_more(fewer, changes@, displayed@[k], displayed@[l]);
                }
            }
        }
        index += 1;
    }
    proof {
        assert forall|last: usize, next: usize| #[trigger]
            is_display_gap(original, last, next) implies explains(changes@, last, next) by {
            assert(displayed@.contains(last) && displayed@.contains(next));
            let k = choose|k: int| 0 <= k < displayed@.len() && displayed@[k] == last;
            let l = choose|l: int| 0 <= l < displayed@.len() && displayed@[l] == next;
            assert(l == k + 1) by {
                if l <= k {
                    if l < k {
                        assert(displayed@[l] < displayed@[k]);
                    }
                } else if l > k + 1 {
                    let middle = displayed@[k + 1];
                    assert(displayed@[k] < displayed@[k + 1] && displayed@[k + 1] < displayed@[l]);
                    assert(displayed@.contains(middle));
                    assert(displays(original, middle));
                }
            }
        }
    }
    AnchoredChange { buoyancy, coverage, changes, context_focus, order, merge_window }
}

/// A displayed line exists.
proof fn lemma_displayed_exists(
    changes: Seq<SourceChange>,
    line: usize,
    before_count: int,
    after_count: int,
)
    requires
        changes_fit(changes, before_count, after_count),
        displays(changes, line),
    ensures
        is_line(line, after_count),
{
    let k = choose|k: int| 0 <= k < changes.len() && displayed_by(#[trigger] changes[k], line);
    assert(change_fits(changes[k], before_count, after_count));
}

/// Context lines are shown once, and never beside a signal on the same line.
pub open spec fn context_once(changes: Seq<SourceChange>) -> bool {
    forall|i: int, j: int, line: usize|
        0 <= i < changes.len() && 0 <= j < changes.len() && i != j && (#[trigger] changes[i])
            == SourceChange::Context(line) ==> !#[trigger] displayed_by(changes[j], line)
}

/// Current lines that changes other than context display.
fn signal_lines(changes: &Vec<SourceChange>) -> (lines: Vec<usize>)
    ensures
        ascending(lines@),
        forall|line: usize| #[trigger]
            lines@.contains(line) <==> crate::plan::anchored::signals(changes@, line),
{
    let mut lines: Vec<usize> = Vec::new();
    let mut index: usize = 0;
    while index < changes.len()
        invariant
            ascending(lines@),
            index <= changes@.len(),
            forall|line: usize| #[trigger]
                lines@.contains(line) <==> crate::plan::anchored::signals(
                    changes@.take(index as int),
                    line,
                ),
        decreases changes@.len() - index,
    {
        let ghost earlier = lines@;
        let change = &changes[index];
        if !change.is_context() {
            add_displayed(&mut lines, change);
        }
        proof {
            let shorter = changes@.take(index as int);
            let longer = changes@.take(index + 1);
            assert(longer[index as int] == changes@[index as int]);
            assert forall|line: usize| #[trigger]
                lines@.contains(line) <==> crate::plan::anchored::signals(longer, line) by {
                assert(earlier.contains(line) <==> crate::plan::anchored::signals(shorter, line));
                if crate::plan::anchored::signals(longer, line) {
                    let k = choose|k: int|
                        0 <= k < longer.len() && crate::plan::anchored::signaled_by(
                            #[trigger] longer[k],
                            line,
                        );
                    if k < index {
                        assert(crate::plan::anchored::signaled_by(shorter[k], line));
                    }
                }
                if crate::plan::anchored::signals(shorter, line) {
                    let k = choose|k: int|
                        0 <= k < shorter.len() && crate::plan::anchored::signaled_by(
                            #[trigger] shorter[k],
                            line,
                        );
                    assert(crate::plan::anchored::signaled_by(longer[k], line));
                }
                if crate::plan::anchored::signaled_by(changes@[index as int], line) {
                    assert(crate::plan::anchored::signaled_by(longer[index as int], line));
                }
            }
        }
        index += 1;
    }
    assert(changes@.take(index as int) =~= changes@);
    lines
}

/// One hunk contains each physical current-world context row at most once.
pub fn deduplicate_context_rows(
    changes: Vec<SourceChange>,
    Ghost(before_count): Ghost<int>,
    Ghost(after_count): Ghost<int>,
) -> (kept: Vec<SourceChange>)
    requires
        changes_fit(changes@, before_count, after_count),
    ensures
        changes_fit(kept@, before_count, after_count),
        keeps_review(changes@, kept@),
        context_once(kept@),
        forall|k: int| 0 <= k < kept@.len() ==> changes@.contains(#[trigger] kept@[k]),
        changes@.len() > 0 ==> kept@.len() > 0,
        forall|line: usize| displays(changes@, line) ==> #[trigger] displays(kept@, line),
        exists|places: Seq<int>| #[trigger] picks_in_order(changes@, kept@, places),
{
    let ghost whole = changes@;
    let ghost mut places: Seq<int> = Seq::empty();
    let signal = signal_lines(&changes);
    let mut pending = reversed(changes);
    let mut seen: Vec<usize> = Vec::new();
    let mut kept: Vec<SourceChange> = Vec::new();
    while pending.len() > 0
        invariant
            changes_fit(whole, before_count, after_count),
            ascending(signal@),
            forall|line: usize| #[trigger]
                signal@.contains(line) <==> crate::plan::anchored::signals(whole, line),
            pending@.len() <= whole.len(),
            forall|k: int|
                0 <= k < pending@.len() ==> (#[trigger] pending@[k]) == whole[whole.len() - 1 - k],
            ascending(seen@),
            forall|k: int|
                0 <= k < kept@.len() ==> ((#[trigger] kept@[k]) matches SourceChange::Context(line)
                    ==> seen@.contains(line) && !signal@.contains(line)),
            forall|k: int, l: int|
                0 <= k < l < kept@.len() && (#[trigger] kept@[k]) is Context && (
                #[trigger] kept@[l]) is Context ==> kept@[k] != kept@[l],
            forall|k: int| 0 <= k < kept@.len() ==> whole.contains(#[trigger] kept@[k]),
            changes_fit(kept@, before_count, after_count),
            forall|k: int|
                0 <= k < whole.len() - pending@.len() && !((#[trigger] whole[k]) is Context)
                    ==> kept@.contains(whole[k]),
            forall|claim: Claim| #[trigger]
                tally(kept@, claim) == tally(whole.take(whole.len() - pending@.len()), claim),
            seen@.len() > 0 ==> kept@.len() > 0,
            picks_in_order(whole, kept@, places),
            forall|k: int|
                0 <= k < places.len() ==> (#[trigger] places[k]) < whole.len() - pending@.len(),
            forall|line: usize| #[trigger]
                seen@.contains(line) ==> kept@.contains(SourceChange::Context(line)),
            forall|k: int|
                0 <= k < whole.len() - pending@.len() ==> ((
                #[trigger] whole[k]) matches SourceChange::Context(line) ==> signal@.contains(line)
                    || seen@.contains(line)),
            whole.len() - pending@.len() > 0 ==> kept@.len() > 0 || exists|line: usize| #[trigger]
                signal@.contains(line),
        decreases pending@.len(),
    {
        let ghost at = whole.len() - pending@.len();
        let ghost earlier = kept@;
        let ghost seen_before = seen@;
        let change = pending.pop().unwrap();
        assert(change == whole[at as int]);
        assert(change_fits(whole[at as int], before_count, after_count));
        let keep = match &change {
            SourceChange::Context(line) => {
                if holds(&signal, *line) || holds(&seen, *line) {
                    false
                } else {
                    insert_ascending(&mut seen, *line);
                    true
                }
            },
            _ => true,
        };
        if keep {
            kept.push(change);
            proof {
                places = places.push(at as int);
                assert(kept@[earlier.len() as int] == change);
                assert(whole.contains(whole[at as int]));
                assert forall|k: int, l: int|
                    0 <= k < l < kept@.len() && (#[trigger] kept@[k]) is Context && (
                    #[trigger] kept@[l]) is Context implies kept@[k] != kept@[l] by {
                    assert(kept@[k] == earlier[k]);
                    if l < earlier.len() {
                        assert(kept@[l] == earlier[l]);
                    }
                }
                assert forall|k: int| 0 <= k < kept@.len() implies ((
                #[trigger] kept@[k]) matches SourceChange::Context(line) ==> seen@.contains(line)
                    && !signal@.contains(line)) by {
                    if k < earlier.len() {
                        assert(kept@[k] == earlier[k]);
                        if let SourceChange::Context(line) = kept@[k] {
                            assert(seen_before.contains(line));
                        }
                    }
                }
            }
        }
        proof {
            assert forall|claim: Claim| #[trigger] tally(kept@, claim) == tally(
                whole.take(at + 1),
                claim,
            ) by {
                let shorter = whole.take(at as int);
                assert(tally(earlier, claim) == tally(shorter, claim));
                assert(whole.take(at + 1) =~= shorter.push(whole[at as int]));
                lemma_tally_push(shorter, whole[at as int], claim);
                if keep {
                    assert(kept@ =~= earlier.push(whole[at as int]));
                    lemma_tally_push(earlier, whole[at as int], claim);
                }
            }
            assert forall|k: int|
                0 <= k < at + 1 && !((#[trigger] whole[k]) is Context) implies kept@.contains(
                whole[k],
            ) by {
                if k < at {
                    let i = choose|i: int| 0 <= i < earlier.len() && earlier[i] == whole[k];
                    assert(kept@[i] == earlier[i]);
                }
            }
            assert forall|line: usize| #[trigger] seen@.contains(line) implies kept@.contains(
                SourceChange::Context(line),
            ) by {
                if seen_before.contains(line) {
                    let shown = SourceChange::Context(line);
                    assert(earlier.contains(shown));
                    let i = choose|i: int| 0 <= i < earlier.len() && earlier[i] == shown;
                    assert(kept@[i] == earlier[i]);
                } else {
                    assert(kept@[earlier.len() as int] == SourceChange::Context(line));
                }
            }
            assert forall|k: int| 0 <= k < at + 1 implies ((
            #[trigger] whole[k]) matches SourceChange::Context(line) ==> signal@.contains(line)
                || seen@.contains(line)) by {
                if k < at {
                    if let SourceChange::Context(line) = whole[k] {
                        assert(signal@.contains(line) || seen_before.contains(line));
                    }
                }
            }
        }
    }
    proof {
        assert(whole.take(whole.len() as int) =~= whole);
        lemma_keeps_members(whole, kept@);
        assert forall|line: usize| displays(whole, line) implies #[trigger] displays(
            kept@,
            line,
        ) by {
            let k = choose|k: int| 0 <= k < whole.len() && displayed_by(#[trigger] whole[k], line);
            if whole[k] is Context && !signal@.contains(line) {
                let shown = SourceChange::Context(line);
                assert(seen@.contains(line));
                assert(kept@.contains(shown));
                let i = choose|i: int| 0 <= i < kept@.len() && kept@[i] == shown;
                assert(displayed_by(kept@[i], line));
            } else {
                assert(crate::plan::anchored::signals(whole, line)) by {
                    if !(whole[k] is Context) {
                        assert(crate::plan::anchored::signaled_by(whole[k], line));
                    }
                }
                let j = choose|j: int|
                    0 <= j < whole.len() && crate::plan::anchored::signaled_by(
                        #[trigger] whole[j],
                        line,
                    );
                assert(kept@.contains(whole[j]));
                let i = choose|i: int| 0 <= i < kept@.len() && kept@[i] == whole[j];
                assert(displayed_by(kept@[i], line));
            }
        }
        assert forall|i: int, j: int, line: usize|
            0 <= i < kept@.len() && 0 <= j < kept@.len() && i != j && (#[trigger] kept@[i])
                == SourceChange::Context(line) implies !#[trigger] displayed_by(kept@[j], line) by {
            if displayed_by(kept@[j], line) {
                if kept@[j] is Context {
                    assert(kept@[j] == kept@[i]);
                } else {
                    assert(whole.contains(kept@[j]));
                    let k = choose|k: int| 0 <= k < whole.len() && whole[k] == kept@[j];
                    assert(crate::plan::anchored::signaled_by(whole[k], line));
                    assert(crate::plan::anchored::signals(whole, line));
                    assert(signal@.contains(line));
                }
            }
        }
        if whole.len() > 0 && kept@.len() == 0 {
            let line = choose|line: usize| #[trigger] signal@.contains(line);
            assert(crate::plan::anchored::signals(whole, line));
            assert(crate::plan::anchored::signals(kept@, line));
        }
    }
    kept
}

} // verus!

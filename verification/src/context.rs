//! Context selection and range geometry shared across diff stages.

use crate::correspondence::scopes::{ascending, insert_ascending};
use crate::span::Span;
use vstd::prelude::*;

verus! {

/// Base context radius in physical lines; merged halos and breadcrumbs may retain more.
pub const CONTEXT_HALO_RADIUS: usize = 3;

/// Allow halos to meet across one extra context row, avoiding a one-line fold.
pub fn context_gap_fits_halos(context_rows: usize) -> (result: bool)
    ensures
        result == (context_rows <= 2 * CONTEXT_HALO_RADIUS + 1),
{
    context_rows <= CONTEXT_HALO_RADIUS * 2 + 1
}

/// Some item of the range is a signal.
pub open spec fn has_signal(signals: spec_fn(int) -> bool, from: int, to: int) -> bool {
    exists|at: int| from <= at < to && #[trigger] signals(at)
}

/// The range starts and ends with a signal, and no eight items of it in a row are without one.
pub open spec fn is_run(signals: spec_fn(int) -> bool, count: int, run: Span) -> bool {
    &&& run.start < run.end <= count
    &&& signals(run.start as int)
    &&& signals(run.end - 1)
    &&& forall|from: int, to: int|
        run.start <= from && to == from + 8 && to <= run.end ==> #[trigger] has_signal(
            signals,
            from,
            to,
        )
}

/// The runs hold every signal; eight items or more without one lie between two of them.
pub open spec fn are_runs(signals: spec_fn(int) -> bool, count: int, runs: Seq<Span>) -> bool {
    &&& forall|k: int| 0 <= k < runs.len() ==> is_run(signals, count, #[trigger] runs[k])
    &&& forall|i: int, j: int|
        0 <= i < j < runs.len() ==> (#[trigger] runs[i]).end + 8 <= (#[trigger] runs[j]).start
    &&& forall|at: int| 0 <= at < count && #[trigger] signals(at) ==> selects(runs, at)
}

/// Runs of the items before an index, the last of which may still grow.
pub open spec fn with_open_run(runs: Seq<Span>, open: Option<Span>) -> Seq<Span> {
    match open {
        Some(run) => runs.push(run),
        None => runs,
    }
}

/// The open run is the last one, and there is one as soon as there is a signal.
pub open spec fn are_open_runs(
    signals: spec_fn(int) -> bool,
    index: int,
    runs: Seq<Span>,
    open: Option<Span>,
) -> bool {
    &&& are_runs(signals, index, with_open_run(runs, open))
    &&& open is None ==> runs.len() == 0
    &&& open matches Some(run) ==> forall|at: int| run.end <= at < index ==> !#[trigger] signals(at)
}

/// One more item joins the open run, starts the next one, or is no signal.
pub proof fn lemma_runs_step(
    signals: spec_fn(int) -> bool,
    index: usize,
    runs: Seq<Span>,
    open: Option<Span>,
)
    requires
        index < usize::MAX,
        are_open_runs(signals, index as int, runs, open),
    ensures
        !signals(index as int) ==> are_open_runs(signals, index + 1, runs, open),
        signals(index as int) ==> match open {
            None => are_open_runs(
                signals,
                index + 1,
                runs,
                Some(Span { start: index, end: (index + 1) as usize }),
            ),
            Some(run) => if index - run.end <= 7 {
                are_open_runs(
                    signals,
                    index + 1,
                    runs,
                    Some(Span { start: run.start, end: (index + 1) as usize }),
                )
            } else {
                are_open_runs(
                    signals,
                    index + 1,
                    runs.push(run),
                    Some(Span { start: index, end: (index + 1) as usize }),
                )
            },
        },
{
    let all = with_open_run(runs, open);
    let next = Span { start: index, end: (index + 1) as usize };
    if !signals(index as int) {
        assert(are_runs(signals, index + 1, all));
    } else {
        match open {
            None => {
                assert(runs.push(next)[0].has(index as int));
                assert forall|at: int| 0 <= at < index + 1 && #[trigger] signals(at) implies selects(
                    runs.push(next),
                    at,
                ) by {
                    if at < index {
                        assert(selects(all, at));
                    }
                }
            },
            Some(run) => {
                assert(all[runs.len() as int] == run);
                assert(is_run(signals, index as int, run));
                if index - run.end <= 7 {
                    let grown = Span { start: run.start, end: (index + 1) as usize };
                    let more = runs.push(grown);
                    assert(is_run(signals, index + 1, grown)) by {
                        assert forall|from: int, to: int|
                            grown.start <= from && to == from + 8 && to
                                <= grown.end implies #[trigger] has_signal(signals, from, to) by {
                            if to <= run.end {
                                assert(has_signal(signals, from, to));
                            } else if from < run.end {
                                assert(signals(run.end - 1));
                            } else {
                                assert(signals(index as int));
                            }
                        }
                    }
                    assert forall|k: int| 0 <= k < more.len() implies is_run(
                        signals,
                        index + 1,
                        #[trigger] more[k],
                    ) by {
                        if k < runs.len() {
                            assert(is_run(signals, index as int, all[k]));
                        }
                    }
                    assert forall|i: int, j: int| 0 <= i < j < more.len() implies (
                    #[trigger] more[i]).end + 8 <= (#[trigger] more[j]).start by {
                        assert(all[i].end + 8 <= all[j].start);
                    }
                    assert forall|at: int| 0 <= at < index + 1 && #[trigger] signals(
                        at,
                    ) implies selects(more, at) by {
                        if at < index {
                            assert(selects(all, at));
                            let k = choose|k: int|
                                0 <= k < all.len() && (#[trigger] all[k]).has(at);
                            assert(more[k].has(at));
                        } else {
                            assert(more[runs.len() as int].has(at));
                        }
                    }
                } else {
                    let more = runs.push(run).push(next);
                    assert forall|k: int| 0 <= k < more.len() implies is_run(
                        signals,
                        index + 1,
                        #[trigger] more[k],
                    ) by {
                        if k < all.len() {
                            assert(more[k] == all[k]);
                            assert(is_run(signals, index as int, all[k]));
                        }
                    }
                    assert forall|i: int, j: int| 0 <= i < j < more.len() implies (
                    #[trigger] more[i]).end + 8 <= (#[trigger] more[j]).start by {
                        if j < all.len() {
                            assert(all[i].end + 8 <= all[j].start);
                        } else if i + 1 < all.len() {
                            assert(all[i].end + 8 <= all[runs.len() as int].start);
                        }
                    }
                    assert forall|at: int| 0 <= at < index + 1 && #[trigger] signals(
                        at,
                    ) implies selects(more, at) by {
                        if at < index {
                            assert(selects(all, at));
                            let k = choose|k: int|
                                0 <= k < all.len() && (#[trigger] all[k]).has(at);
                            assert(more[k].has(at));
                        } else {
                            assert(more[all.len() as int].has(at));
                        }
                    }
                }
            },
        }
    }
}

/// Expand a nonempty signal range, stopping at another signal or the context limit.
pub fn context_halo_range<T, F: Fn(&T) -> bool>(items: &[T], signal: Span, is_context: F) -> (halo:
    Span)
    requires
        signal.start < signal.end <= items@.len(),
        forall|i: int|
            0 <= i < items@.len() ==> call_requires(is_context, (&#[trigger] items@[i],)),
    ensures
        halo.start <= signal.start < signal.end <= halo.end <= items@.len(),
        signal.start - halo.start <= CONTEXT_HALO_RADIUS,
        halo.end - signal.end <= CONTEXT_HALO_RADIUS,
        forall|i: int|
            halo.start <= i < signal.start ==> call_ensures(
                is_context,
                (&#[trigger] items@[i],),
                true,
            ),
        forall|i: int|
            signal.end <= i < halo.end ==> call_ensures(is_context, (&#[trigger] items@[i],), true),
        halo.start == 0 || signal.start - halo.start == CONTEXT_HALO_RADIUS || call_ensures(
            is_context,
            (&items@[halo.start - 1],),
            false,
        ),
        halo.end == items@.len() || halo.end - signal.end == CONTEXT_HALO_RADIUS || call_ensures(
            is_context,
            (&items@[halo.end as int],),
            false,
        ),
{
    let mut start = signal.start;
    let mut open: bool = true;
    while start > 0 && signal.start - start < CONTEXT_HALO_RADIUS && open
        invariant
            start <= signal.start <= items@.len(),
            signal.start - start <= CONTEXT_HALO_RADIUS,
            forall|i: int|
                0 <= i < items@.len() ==> call_requires(is_context, (&#[trigger] items@[i],)),
            forall|i: int|
                start <= i < signal.start ==> call_ensures(
                    is_context,
                    (&#[trigger] items@[i],),
                    true,
                ),
            !open ==> start > 0 && call_ensures(is_context, (&items@[start - 1],), false),
        decreases start, if open { 1int } else { 0int },
    {
        if is_context(&items[start - 1]) {
            start -= 1;
        } else {
            open = false;
        }
    }
    let mut end = signal.end;
    let mut open: bool = true;
    while end < items.len() && end - signal.end < CONTEXT_HALO_RADIUS && open
        invariant
            signal.end <= end <= items@.len(),
            end - signal.end <= CONTEXT_HALO_RADIUS,
            forall|i: int|
                0 <= i < items@.len() ==> call_requires(is_context, (&#[trigger] items@[i],)),
            forall|i: int|
                signal.end <= i < end ==> call_ensures(is_context, (&#[trigger] items@[i],), true),
            !open ==> end < items@.len() && call_ensures(is_context, (&items@[end as int],), false),
        decreases items@.len() - end, if open { 1int } else { 0int },
    {
        if is_context(&items[end]) {
            end += 1;
        } else {
            open = false;
        }
    }
    Span { start, end }
}

/// The lookup always answers as the rows do.
pub open spec fn answers<F: Fn(usize) -> Option<usize>>(
    context_index: F,
    rows: spec_fn(usize) -> Option<usize>,
) -> bool {
    forall|line: usize, index: Option<usize>| #[trigger]
        call_ensures(context_index, (line,), index) ==> index == rows(line)
}

/// The lookup can give the index.
pub open spec fn is_row<F: Fn(usize) -> Option<usize>>(context_index: F, index: usize) -> bool {
    exists|line: usize| #[trigger] call_ensures(context_index, (line,), Some(index))
}

/// The line is the breadcrumb, or present rows lead to it within the radius.
pub open spec fn leads_to(
    rows: spec_fn(usize) -> Option<usize>,
    breadcrumb: usize,
    line: usize,
) -> bool {
    ||| line == breadcrumb
    ||| 1 <= line < breadcrumb && breadcrumb - line <= CONTEXT_HALO_RADIUS && forall|between: usize|
        line <= between < breadcrumb ==> (#[trigger] rows(between)) is Some
    ||| breadcrumb < line && line - breadcrumb <= CONTEXT_HALO_RADIUS && forall|between: usize|
        breadcrumb < between <= line ==> (#[trigger] rows(between)) is Some
}

/// The index is that of the breadcrumb's own row or of one that present rows lead to.
pub open spec fn in_halo(
    rows: spec_fn(usize) -> Option<usize>,
    breadcrumb: usize,
    index: usize,
) -> bool {
    exists|line: usize| #[trigger]
        leads_to(rows, breadcrumb, line) && rows(line) == Some(index)
}

/// The index is in the halo of one of the breadcrumbs.
pub open spec fn in_halos(
    rows: spec_fn(usize) -> Option<usize>,
    breadcrumbs: Seq<usize>,
    index: usize,
) -> bool {
    exists|k: int| 0 <= k < breadcrumbs.len() && in_halo(rows, #[trigger] breadcrumbs[k], index)
}

/// The list holds exactly the indices in the halos of the breadcrumbs.
pub open spec fn lists_halos<F: Fn(usize) -> Option<usize>>(
    indices: Seq<usize>,
    breadcrumbs: Seq<usize>,
    context_index: F,
) -> bool {
    forall|rows: spec_fn(usize) -> Option<usize>| #[trigger]
        answers(context_index, rows) ==> forall|index: usize|
            indices.contains(index) <==> #[trigger] in_halos(rows, breadcrumbs, index)
}

/// Select breadcrumbs and their contiguous context as sorted, unique row indices.
pub fn breadcrumb_halo_indices<F: Fn(usize) -> Option<usize>>(
    breadcrumbs: &Vec<usize>,
    context_index: F,
) -> (indices: Vec<usize>)
    requires
        forall|line: usize| call_requires(context_index, (line,)),
    ensures
        ascending(indices@),
        forall|k: int|
            0 <= k < indices@.len() ==> is_row(context_index, #[trigger] indices@[k]),
        lists_halos(indices@, breadcrumbs@, context_index),
{
    let mut indices: Vec<usize> = Vec::new();
    let mut position: usize = 0;
    while position < breadcrumbs.len()
        invariant
            forall|line: usize| call_requires(context_index, (line,)),
            position <= breadcrumbs@.len(),
            ascending(indices@),
            forall|value: usize| #[trigger]
                indices@.contains(value) ==> is_row(context_index, value),
            lists_halos(indices@, breadcrumbs@.take(position as int), context_index),
        decreases breadcrumbs@.len() - position,
    {
        let ghost earlier = indices@;
        let halo = halo_rows(breadcrumbs[position], &context_index);
        let mut next: usize = 0;
        while next < halo.len()
            invariant
                next <= halo@.len(),
                ascending(indices@),
                forall|value: usize| #[trigger]
                    indices@.contains(value) <==> earlier.contains(value) || halo@.take(
                        next as int,
                    ).contains(value),
            decreases halo@.len() - next,
        {
            let ghost shorter = halo@.take(next as int);
            let ghost fewer = indices@;
            insert_ascending(&mut indices, halo[next]);
            next += 1;
            proof {
                let longer = halo@.take(next as int);
                assert(longer =~= shorter.push(halo@[next - 1]));
                assert forall|value: usize|
                    longer.contains(value) <==> shorter.contains(value) || value == halo@[next
                        - 1] by {
                    if shorter.contains(value) {
                        let k = choose|k: int| 0 <= k < shorter.len() && shorter[k] == value;
                        assert(longer[k] == value);
                    }
                    assert(longer[next - 1] == halo@[next - 1]);
                    if longer.contains(value) {
                        let k = choose|k: int| 0 <= k < longer.len() && longer[k] == value;
                        if k < next - 1 {
                            assert(shorter[k] == value);
                        }
                    }
                }
                assert forall|value: usize|
                    indices@.contains(value) <==> earlier.contains(value) || longer.contains(
                        value,
                    ) by {
                    assert(fewer.contains(value) <==> earlier.contains(value) || shorter.contains(
                        value,
                    ));
                }
            }
        }
        proof {
            assert(halo@.take(next as int) =~= halo@);
            assert forall|value: usize| #[trigger] indices@.contains(value) implies is_row(
                context_index,
                value,
            ) by {
                if !earlier.contains(value) {
                    let k = choose|k: int| 0 <= k < halo@.len() && halo@[k] == value;
                    assert(is_row(context_index, halo@[k]));
                }
            }
            let before = breadcrumbs@.take(position as int);
            let after = breadcrumbs@.take(position + 1);
            assert forall|rows: spec_fn(usize) -> Option<usize>| #[trigger]
                answers(context_index, rows) implies forall|index: usize|
                indices@.contains(index) <==> #[trigger] in_halos(rows, after, index) by {
                assert forall|index: usize|
                    indices@.contains(index) <==> #[trigger] in_halos(rows, after, index) by {
                    assert(earlier.contains(index) <==> in_halos(rows, before, index));
                    if in_halos(rows, before, index) {
                        let k = choose|k: int|
                            0 <= k < before.len() && in_halo(rows, #[trigger] before[k], index);
                        assert(after[k] == before[k]);
                    }
                    if in_halo(rows, breadcrumbs@[position as int], index) {
                        assert(after[position as int] == breadcrumbs@[position as int]);
                    }
                    if in_halos(rows, after, index) {
                        let k = choose|k: int|
                            0 <= k < after.len() && in_halo(rows, #[trigger] after[k], index);
                        if k < position {
                            assert(before[k] == after[k]);
                        }
                    }
                }
            }
        }
        position += 1;
    }
    assert(breadcrumbs@.take(position as int) =~= breadcrumbs@);
    assert forall|k: int| 0 <= k < indices@.len() implies is_row(
        context_index,
        #[trigger] indices@[k],
    ) by {
        assert(indices@.contains(indices@[k]));
    }
    indices
}

/// The rows of a halo that were found behind and ahead of a breadcrumb.
spec fn finds_halo(
    found: Seq<usize>,
    rows: spec_fn(usize) -> Option<usize>,
    breadcrumb: usize,
    before: usize,
    after: usize,
) -> bool {
    &&& forall|k: int| 0 <= k < found.len() ==> in_halo(rows, breadcrumb, #[trigger] found[k])
    &&& rows(breadcrumb) matches Some(index) ==> found.contains(index)
    &&& forall|line: usize|
        before <= line < breadcrumb ==> (#[trigger] rows(line)) is Some && found.contains(
            rows(line)->0,
        )
    &&& forall|line: usize|
        breadcrumb < line <= after ==> (#[trigger] rows(line)) is Some && found.contains(
            rows(line)->0,
        )
}

/// A longer list of found rows.
proof fn lemma_finds_more(
    found: Seq<usize>,
    rows: spec_fn(usize) -> Option<usize>,
    breadcrumb: usize,
    before: usize,
    after: usize,
    line: usize,
    index: usize,
)
    requires
        finds_halo(found, rows, breadcrumb, before, after),
        rows(line) == Some(index),
        leads_to(rows, breadcrumb, line),
    ensures
        line == before - 1 ==> finds_halo(found.push(index), rows, breadcrumb, line, after),
        line == after + 1 ==> finds_halo(found.push(index), rows, breadcrumb, before, line),
{
    let longer = found.push(index);
    assert(longer[found.len() as int] == index);
    assert forall|value: usize| found.contains(value) implies longer.contains(value) by {
        let k = choose|k: int| 0 <= k < found.len() && found[k] == value;
        assert(longer[k] == value);
    }
    assert forall|k: int| 0 <= k < longer.len() implies in_halo(
        rows,
        breadcrumb,
        #[trigger] longer[k],
    ) by {
        if k < found.len() {
            assert(longer[k] == found[k]);
        }
    }
}

/// Indices of a breadcrumb's own row and of the rows that present rows lead to.
fn halo_rows<F: Fn(usize) -> Option<usize>>(breadcrumb: usize, context_index: &F) -> (found: Vec<
    usize,
>)
    requires
        forall|line: usize| call_requires(*context_index, (line,)),
    ensures
        forall|k: int|
            0 <= k < found@.len() ==> is_row(*context_index, #[trigger] found@[k]),
        forall|rows: spec_fn(usize) -> Option<usize>| #[trigger]
            answers(*context_index, rows) ==> forall|index: usize|
                found@.contains(index) <==> #[trigger] in_halo(rows, breadcrumb, index),
{
    let mut found: Vec<usize> = Vec::new();
    if let Some(index) = context_index(breadcrumb) {
        found.push(index);
        proof {
            assert forall|rows: spec_fn(usize) -> Option<usize>| #[trigger]
                answers(*context_index, rows) implies finds_halo(
                found@,
                rows,
                breadcrumb,
                breadcrumb,
                breadcrumb,
            ) by {
                assert(leads_to(rows, breadcrumb, breadcrumb));
                assert(rows(breadcrumb) == Some(index));
                assert(found@[0] == index);
            }
        }
    }
    let mut before = breadcrumb;
    let mut open: bool = true;
    while open && breadcrumb - before < CONTEXT_HALO_RADIUS && before > 1
        invariant
            forall|line: usize| call_requires(*context_index, (line,)),
            forall|k: int|
                0 <= k < found@.len() ==> is_row(*context_index, #[trigger] found@[k]),
            before <= breadcrumb,
            before < breadcrumb ==> before >= 1,
            breadcrumb - before <= CONTEXT_HALO_RADIUS,
            forall|rows: spec_fn(usize) -> Option<usize>| #[trigger]
                answers(*context_index, rows) ==> finds_halo(
                    found@,
                    rows,
                    breadcrumb,
                    before,
                    breadcrumb,
                ) && (!open ==> before > 1 && rows((before - 1) as usize) is None),
        decreases before, if open { 1int } else { 0int },
    {
        match context_index(before - 1) {
            Some(index) => {
                let ghost shorter = found@;
                found.push(index);
                before -= 1;
                proof {
                    assert forall|rows: spec_fn(usize) -> Option<usize>| #[trigger]
                        answers(*context_index, rows) implies finds_halo(
                        found@,
                        rows,
                        breadcrumb,
                        before,
                        breadcrumb,
                    ) by {
                        assert(rows(before) == Some(index));
                        assert(leads_to(rows, breadcrumb, before));
                        lemma_finds_more(
                            shorter,
                            rows,
                            breadcrumb,
                            (before + 1) as usize,
                            breadcrumb,
                            before,
                            index,
                        );
                    }
                }
            },
            None => {
                open = false;
            },
        }
    }
    let ghost stopped = open;
    let mut after = breadcrumb;
    let mut open: bool = true;
    while open && after - breadcrumb < CONTEXT_HALO_RADIUS && after < usize::MAX
        invariant
            forall|line: usize| call_requires(*context_index, (line,)),
            forall|k: int|
                0 <= k < found@.len() ==> is_row(*context_index, #[trigger] found@[k]),
            before <= breadcrumb <= after,
            after - breadcrumb <= CONTEXT_HALO_RADIUS,
            forall|rows: spec_fn(usize) -> Option<usize>| #[trigger]
                answers(*context_index, rows) ==> finds_halo(
                    found@,
                    rows,
                    breadcrumb,
                    before,
                    after,
                ) && (!stopped ==> before > 1 && rows((before - 1) as usize) is None) && (!open
                    ==> after < usize::MAX && rows((after + 1) as usize) is None),
        decreases usize::MAX - after, if open { 1int } else { 0int },
    {
        match context_index(after + 1) {
            Some(index) => {
                let ghost shorter = found@;
                found.push(index);
                after += 1;
                proof {
                    assert forall|rows: spec_fn(usize) -> Option<usize>| #[trigger]
                        answers(*context_index, rows) implies finds_halo(
                        found@,
                        rows,
                        breadcrumb,
                        before,
                        after,
                    ) by {
                        assert(rows(after) == Some(index));
                        assert(leads_to(rows, breadcrumb, after));
                        lemma_finds_more(
                            shorter,
                            rows,
                            breadcrumb,
                            before,
                            (after - 1) as usize,
                            after,
                            index,
                        );
                    }
                }
            },
            None => {
                open = false;
            },
        }
    }
    proof {
        assert forall|rows: spec_fn(usize) -> Option<usize>| #[trigger]
            answers(*context_index, rows) implies forall|index: usize|
            found@.contains(index) <==> #[trigger] in_halo(rows, breadcrumb, index) by {
            assert(finds_halo(found@, rows, breadcrumb, before, after));
            assert forall|index: usize|
                found@.contains(index) <==> #[trigger] in_halo(rows, breadcrumb, index) by {
                if in_halo(rows, breadcrumb, index) {
                    let line = choose|line: usize| #[trigger]
                        leads_to(rows, breadcrumb, line) && rows(line) == Some(index);
                    if line < breadcrumb {
                        assert(line >= before) by {
                            if line < before {
                                assert(rows((before - 1) as usize) is Some);
                            }
                        }
                    } else if line > breadcrumb {
                        assert(line <= after) by {
                            if line > after {
                                assert(rows((after + 1) as usize) is Some);
                            }
                        }
                    }
                }
                if found@.contains(index) {
                    let k = choose|k: int| 0 <= k < found@.len() && found@[k] == index;
                    assert(in_halo(rows, breadcrumb, found@[k]));
                }
            }
        }
    }
    found
}

/// Some range holds the position.
pub open spec fn selects(ranges: Seq<Span>, position: int) -> bool {
    exists|k: int| 0 <= k < ranges.len() && (#[trigger] ranges[k]).has(position)
}

/// Ranges follow each other with a gap in between.
pub open spec fn ranges_apart(ranges: Seq<Span>) -> bool {
    forall|i: int, j: int|
        0 <= i < j < ranges.len() ==> (#[trigger] ranges[i]).end < (#[trigger] ranges[j]).start
}

/// The row is in the signal halo or a breadcrumb.
pub open spec fn is_chosen(halo: Span, breadcrumbs: Seq<usize>, row: int) -> bool {
    halo.has(row) || 0 <= row <= usize::MAX && breadcrumbs.contains(row as usize)
}

/// Every row of the ranges is chosen, or a context row between two chosen ones.
pub open spec fn fills_single_rows<F: Fn(usize) -> bool>(
    halo: Span,
    breadcrumbs: Seq<usize>,
    is_context: F,
    ranges: Seq<Span>,
) -> bool {
    forall|i: int|
        0 <= i <= usize::MAX && #[trigger] selects(ranges, i) ==> is_chosen(halo, breadcrumbs, i)
            || call_ensures(is_context, (i as usize,), true) && is_chosen(halo, breadcrumbs, i - 1)
            && is_chosen(halo, breadcrumbs, i + 1)
}

/// Ranges with a single row between them are apart because the row is no context.
pub open spec fn leaves_no_context_row<F: Fn(usize) -> bool>(
    is_context: F,
    ranges: Seq<Span>,
) -> bool {
    forall|k: int, l: int|
        0 <= k && l == k + 1 && l < ranges.len() && (#[trigger] ranges[l]).start == (
        #[trigger] ranges[k]).end + 1 ==> call_ensures(is_context, (ranges[k].end,), false)
}

/// Join the signal halo and breadcrumb rows, filling any one-row context gaps.
pub fn review_selection_ranges<F: Fn(usize) -> bool>(
    context_halo: Span,
    breadcrumbs: &Vec<usize>,
    is_context: F,
) -> (ranges: Vec<Span>)
    requires
        context_halo.start < context_halo.end,
        forall|k: int| 0 <= k < breadcrumbs@.len() ==> (#[trigger] breadcrumbs@[k]) < usize::MAX,
        forall|index: usize| call_requires(is_context, (index,)),
    ensures
        ranges_apart(ranges@),
        forall|k: int| 0 <= k < ranges@.len() ==> (#[trigger] ranges@[k]).start < ranges@[k].end,
        forall|i: int| context_halo.has(i) ==> #[trigger] selects(ranges@, i),
        forall|k: int|
            0 <= k < breadcrumbs@.len() ==> selects(ranges@, (#[trigger] breadcrumbs@[k]) as int),
        fills_single_rows(context_halo, breadcrumbs@, is_context, ranges@),
        leaves_no_context_row(is_context, ranges@),
{
    let crumbs = sorted_rows(breadcrumbs);
    proof {
        assert forall|k: int| 0 <= k < crumbs@.len() implies (#[trigger] crumbs@[k])
            < usize::MAX by {
            assert(crumbs@.contains(crumbs@[k]));
            let at = choose|at: int|
                0 <= at < breadcrumbs@.len() && breadcrumbs@[at] == crumbs@[k];
            assert(breadcrumbs@[at] < usize::MAX);
        }
    }
    let mut ranges: Vec<Span> = Vec::new();
    let mut placed: bool = false;
    let mut index: usize = 0;
    while index < crumbs.len() || !placed
        invariant
            context_halo.start < context_halo.end,
            index <= crumbs@.len(),
            ascending(crumbs@),
            forall|k: int| 0 <= k < crumbs@.len() ==> (#[trigger] crumbs@[k]) < usize::MAX,
            forall|value: usize| crumbs@.contains(value) <==> breadcrumbs@.contains(value),
            forall|value: usize| call_requires(is_context, (value,)),
            selection_ok(context_halo, crumbs@, is_context, ranges@, index as int, placed),
        decreases crumbs@.len() - index, if placed { 0int } else { 1int },
    {
        let next_halo = !placed && (index == crumbs.len() || context_halo.start <= crumbs[index]);
        if next_halo {
            add_range(
                context_halo,
                &crumbs,
                &is_context,
                &mut ranges,
                index,
                placed,
                context_halo,
            );
            placed = true;
        } else {
            let crumb = crumbs[index];
            assert(crumbs@[index as int] == crumb);
            add_range(
                context_halo,
                &crumbs,
                &is_context,
                &mut ranges,
                index,
                placed,
                Span { start: crumb, end: crumb + 1 },
            );
            index += 1;
        }
    }
    proof {
        assert forall|k: int| 0 <= k < breadcrumbs@.len() implies selects(
            ranges@,
            (#[trigger] breadcrumbs@[k]) as int,
        ) by {
            assert(breadcrumbs@.contains(breadcrumbs@[k]));
            let at = choose|at: int| 0 <= at < crumbs@.len() && crumbs@[at] == breadcrumbs@[k];
            assert(selects(ranges@, crumbs@[at] as int));
        }
        assert forall|i: int| #[trigger] is_chosen(context_halo, crumbs@, i) <==> is_chosen(
            context_halo,
            breadcrumbs@,
            i,
        ) by {}
    }
    ranges
}

/// What holds of the ranges built so far.
spec fn selection_ok<F: Fn(usize) -> bool>(
    halo: Span,
    crumbs: Seq<usize>,
    is_context: F,
    ranges: Seq<Span>,
    index: int,
    placed: bool,
) -> bool {
    &&& ranges_apart(ranges)
    &&& forall|k: int| 0 <= k < ranges.len() ==> (#[trigger] ranges[k]).start < ranges[k].end
    &&& placed ==> forall|i: int| halo.has(i) ==> #[trigger] selects(ranges, i)
    &&& forall|k: int| 0 <= k < index ==> selects(ranges, (#[trigger] crumbs[k]) as int)
    &&& fills_single_rows(halo, crumbs, is_context, ranges)
    &&& leaves_no_context_row(is_context, ranges)
    &&& forall|k: int|
        0 <= k < ranges.len() ==> is_chosen(halo, crumbs, (#[trigger] ranges[k]).end - 1)
    &&& ranges.len() > 0 ==> forall|k: int|
        index <= k < crumbs.len() ==> ranges[ranges.len() - 1].start <= (#[trigger] crumbs[k])
    &&& ranges.len() > 0 && !placed ==> ranges[ranges.len() - 1].start <= halo.start
}

/// Add the next range, joining it to the last one where they touch or leave one context row.
fn add_range<F: Fn(usize) -> bool>(
    halo: Span,
    crumbs: &Vec<usize>,
    is_context: &F,
    ranges: &mut Vec<Span>,
    index: usize,
    placed: bool,
    range: Span,
)
    requires
        halo.start < halo.end,
        ascending(crumbs@),
        index <= crumbs@.len(),
        forall|value: usize| call_requires(*is_context, (value,)),
        selection_ok(halo, crumbs@, *is_context, old(ranges)@, index as int, placed),
        range.start < range.end,
        range == halo && !placed && (index < crumbs@.len() ==> halo.start <= crumbs@[index as int])
            || index < crumbs@.len() && range.start == crumbs@[index as int] && range.end
            == range.start + 1 && (!placed ==> crumbs@[index as int] < halo.start),
    ensures
        range == halo && !placed && (index == crumbs@.len() || halo.start <= crumbs@[index as int])
            ==> selection_ok(halo, crumbs@, *is_context, final(ranges)@, index as int, true),
        index < crumbs@.len() && range.start == crumbs@[index as int] && range.end == range.start
            + 1 && (!placed ==> crumbs@[index as int] < halo.start) ==> selection_ok(
            halo,
            crumbs@,
            *is_context,
            final(ranges)@,
            index + 1,
            placed,
        ),
{
    let ghost earlier = ranges@;
    let ghost last = earlier.len() - 1;
    proof {
        if range != halo {
            assert(crumbs@[index as int] == range.start);
            assert(crumbs@.contains(range.start));
        }
        assert(is_chosen(halo, crumbs@, range.start as int));
        assert(is_chosen(halo, crumbs@, range.end - 1));
    }
    let mut joined: bool = false;
    if ranges.len() > 0 {
        let position = ranges.len() - 1;
        let previous = ranges[position];
        let touches = range.start <= previous.end || (range.start - previous.end == 1
            && is_context(previous.end));
        if touches {
            let end = if previous.end >= range.end {
                previous.end
            } else {
                range.end
            };
            ranges.set(position, Span { start: previous.start, end });
            joined = true;
        }
    }
    if !joined {
        ranges.push(range);
    }
    proof {
        assert forall|i: int| #[trigger] selects(earlier, i) implies selects(ranges@, i) by {
            let k = choose|k: int| 0 <= k < earlier.len() && (#[trigger] earlier[k]).has(i);
            assert(ranges@[k].has(i));
        }
        assert forall|i: int| range.has(i) implies #[trigger] selects(ranges@, i) by {
            assert(ranges@[ranges@.len() - 1].has(i));
        }
        if placed {
            assert forall|i: int| halo.has(i) implies #[trigger] selects(ranges@, i) by {
                assert(selects(earlier, i));
            }
        }
        if index < crumbs@.len() && range.start == crumbs@[index as int] {
            assert forall|k: int| index + 1 <= k < crumbs@.len() implies ranges@[ranges@.len()
                - 1].start <= (#[trigger] crumbs@[k]) by {
                assert(crumbs@[index as int] < crumbs@[k]);
            }
            assert(range.has(crumbs@[index as int] as int));
            assert(selects(ranges@, crumbs@[index as int] as int));
            assert forall|k: int| 0 <= k < index + 1 implies selects(
                ranges@,
                (#[trigger] crumbs@[k]) as int,
            ) by {
                if k < index {
                    assert(selects(earlier, crumbs@[k] as int));
                }
            }
        }
        assert forall|i: int|
            0 <= i <= usize::MAX && #[trigger] selects(ranges@, i) implies is_chosen(
            halo,
            crumbs@,
            i,
        ) || call_ensures(*is_context, (i as usize,), true) && is_chosen(halo, crumbs@, i - 1)
            && is_chosen(halo, crumbs@, i + 1) by {
            let k = choose|k: int| 0 <= k < ranges@.len() && (#[trigger] ranges@[k]).has(i);
            if k < earlier.len() && earlier[k].has(i) {
                assert(selects(earlier, i));
            } else if range.has(i) {
                if range != halo {
                    assert(crumbs@[index as int] == i as usize);
                    assert(crumbs@.contains(i as usize));
                }
            } else {
                assert(joined && k == last);
                assert(i == earlier[last].end);
                assert(is_chosen(halo, crumbs@, earlier[last].end - 1));
                assert(is_chosen(halo, crumbs@, range.start as int));
            }
        }
        assert forall|k: int| 0 <= k < ranges@.len() implies is_chosen(
            halo,
            crumbs@,
            (#[trigger] ranges@[k]).end - 1,
        ) by {
            if k < last || k == last && !joined {
                assert(ranges@[k] == earlier[k]);
            } else if k == last {
                assert(is_chosen(halo, crumbs@, earlier[last].end - 1));
            }
        }
        assert forall|k: int, l: int|
            0 <= k && l == k + 1 && l < ranges@.len() && (#[trigger] ranges@[l]).start == (
            #[trigger] ranges@[k]).end + 1 implies call_ensures(
            *is_context,
            (ranges@[k].end,),
            false,
        ) by {
            if l < earlier.len() {
                assert(earlier[l].start == earlier[k].end + 1);
            }
        }
        assert forall|i: int, j: int| 0 <= i < j < ranges@.len() implies (
        #[trigger] ranges@[i]).end < (#[trigger] ranges@[j]).start by {
            if j < earlier.len() {
                assert(earlier[i].end < earlier[j].start);
                assert(ranges@[i].end == earlier[i].end);
            } else {
                assert(i <= last);
                if i < last {
                    assert(earlier[i].end < earlier[last].start);
                }
            }
        }
    }
}

/// Ascending copy of the rows, without repeats.
fn sorted_rows(rows: &Vec<usize>) -> (sorted: Vec<usize>)
    ensures
        ascending(sorted@),
        forall|value: usize| sorted@.contains(value) <==> rows@.contains(value),
{
    let mut sorted: Vec<usize> = Vec::new();
    let mut index: usize = 0;
    while index < rows.len()
        invariant
            index <= rows@.len(),
            ascending(sorted@),
            forall|value: usize|
                sorted@.contains(value) <==> rows@.take(index as int).contains(value),
        decreases rows@.len() - index,
    {
        insert_ascending(&mut sorted, rows[index]);
        proof {
            assert forall|value: usize|
                sorted@.contains(value) <==> rows@.take(index + 1).contains(value) by {
                let before = rows@.take(index as int);
                let after = rows@.take(index + 1);
                if before.contains(value) {
                    let k = choose|k: int| 0 <= k < before.len() && before[k] == value;
                    assert(after[k] == value);
                }
                if value == rows@[index as int] {
                    assert(after[index as int] == value);
                }
                if after.contains(value) {
                    let k = choose|k: int| 0 <= k < after.len() && after[k] == value;
                    if k < index {
                        assert(before[k] == value);
                    }
                }
            }
        }
        index += 1;
    }
    assert(rows@.take(index as int) =~= rows@);
    sorted
}

/// Treat a one-row gap as touching to avoid a one-row fold.
pub fn merge_windows_touch(left: &Span, right: &Span) -> (result: bool)
    ensures
        result == (right.start <= left.end + 1),
{
    right.start <= left.end || right.start - left.end <= 1
}

/// Smallest range that holds both.
pub open spec fn included(range: Option<Span>, addition: Option<Span>) -> Option<Span> {
    match (range, addition) {
        (Some(range), Some(addition)) => Some(
            Span {
                start: if range.start <= addition.start {
                    range.start
                } else {
                    addition.start
                },
                end: if range.end >= addition.end {
                    range.end
                } else {
                    addition.end
                },
            },
        ),
        (Some(range), None) => Some(range),
        (None, addition) => addition,
    }
}

/// Two ranges are joined to the least range that holds both; one alone is kept.
pub proof fn law_joined_range_is_least(range: Span, addition: Span, outer: Span)
    ensures
        included(Some(range), None) == Some(range),
        included(None, Some(addition)) == Some(addition),
        included(Some(range), Some(addition)) == included(Some(addition), Some(range)),
        included(Some(range), Some(addition)) matches Some(joined) && joined.start <= range.start
            && joined.start <= addition.start && joined.end >= range.end && joined.end
            >= addition.end && (outer.start <= range.start && outer.start <= addition.start
            && outer.end >= range.end && outer.end >= addition.end ==> outer.start <= joined.start
            && joined.end <= outer.end),
{
}

pub fn include_range(range: &mut Option<Span>, addition: Option<Span>)
    ensures
        *final(range) == included(*old(range), addition),
{
    if let Some(addition) = addition {
        let joined = match *range {
            None => addition,
            Some(range) => Span {
                start: if range.start <= addition.start {
                    range.start
                } else {
                    addition.start
                },
                end: if range.end >= addition.end {
                    range.end
                } else {
                    addition.end
                },
            },
        };
        *range = Some(joined);
    }
}

pub fn ranges_overlap(left: &Span, right: &Span) -> (result: bool)
    ensures
        result == (left.start < right.end && right.start < left.end),
{
    left.start < right.end && right.start < left.end
}

} // verus!

//! Structural regions that survive a change and may partition its presentation.

use crate::correspondence::geometry::{row_span, zero_based_lines};
use crate::correspondence::links::{NodeLink, Placement, ParentCorrespondence};
use crate::plan::scene::{
    endings_agree, in_decoration, line_isolated, node_is_line_isolated, physical_lines_equal,
    rows_equal, same_line_endings, PlanScene,
};
use crate::plan::sorting::{items_ascend, key_less, sorted_by_keys, SortKey};
use crate::span::Span;
use vstd::prelude::*;

verus! {

/// Whether a structural region survived exactly or changed physical layout.
#[derive(Clone, Copy, Debug, PartialEq, Eq, Structural)]
pub enum Retention {
    Exact,
    Reflow,
}

/// Rows of a subtree that both revisions hold.
#[derive(Clone, Copy, Debug, PartialEq, Eq, Structural)]
pub struct RetainedRegion {
    pub before: Span,
    pub after: Span,
    pub retention: Retention,
}

/// The rows are those of a matched subtree.
pub open spec fn is_retained(scene: PlanScene<'_>, before: Span, after: Span) -> bool {
    exists|k: int|
        0 <= k < scene.graph.tree.composites@.len() && row_span(
            scene.pair.before,
            (#[trigger] scene.graph.tree.composites@[k]).before as int,
        ) == before && row_span(
            scene.pair.after,
            scene.graph.tree.composites@[k].after as int,
        ) == after
}

/// The region lies inside the given rows, belongs to a matched subtree, and its retention is true
/// to its bytes.
pub open spec fn region_ok(
    scene: PlanScene<'_>,
    region: RetainedRegion,
    before: Span,
    after: Span,
) -> bool {
    &&& before.start <= region.before.start < region.before.end <= before.end
    &&& after.start <= region.after.start < region.after.end <= after.end
    &&& endings_agree(*scene.pair, region.before, region.after)
    &&& is_retained(scene, region.before, region.after)
    &&& region.retention == Retention::Exact ==> rows_equal(
        *scene.pair,
        region.before,
        region.after,
    )
}

/// Regions follow one another in both revisions.
pub open spec fn regions_in_order(regions: Seq<RetainedRegion>) -> bool {
    forall|i: int, j: int|
        0 <= i < j < regions.len() ==> (#[trigger] regions[i]).before.end <= (
        #[trigger] regions[j]).before.start && regions[i].after.end <= regions[j].after.start
}

/// The region that a link retains, if any.
pub open spec fn region_of(
    scene: PlanScene<'_>,
    link: NodeLink,
    before: Span,
    after: Span,
) -> Option<RetainedRegion> {
    let old_rows = row_span(scene.pair.before, link.before as int);
    let new_rows = row_span(scene.pair.after, link.after as int);
    let old_facts = scene.anchors.before@[link.before as int];
    let new_facts = scene.anchors.after@[link.after as int];
    if link.placement == Placement::Reordered || in_decoration(
        scene.pair.before,
        link.before as int,
    ) || in_decoration(scene.pair.after, link.after as int) || !line_isolated(
        scene.pair.before,
        link.before as int,
        false,
    ) || !line_isolated(scene.pair.after, link.after as int, false) || old_rows.empty()
        || new_rows.empty() || old_rows.start < before.start || old_rows.end > before.end
        || new_rows.start < after.start || new_rows.end > after.end || old_facts.has_opaque
        || new_facts.has_opaque || !old_facts.has_payload || !new_facts.has_payload
        || !endings_agree(*scene.pair, old_rows, new_rows) {
        None
    } else {
        Some(
            RetainedRegion {
                before: old_rows,
                after: new_rows,
                retention: if rows_equal(*scene.pair, old_rows, new_rows) && link.wrapper is None
                    && link.parent == ParentCorrespondence::Direct {
                    Retention::Exact
                } else {
                    Retention::Reflow
                },
            },
        )
    }
}

/// A link keeps whole rows of both revisions when only indentation shares them, its subtree
/// holds payload and nothing opaque, and no terminator changes inside it.
pub fn retained_region(scene: &PlanScene<'_>, link: &NodeLink, before: Span, after: Span) -> (region:
    Option<RetainedRegion>)
    requires
        scene.wf(),
        scene.graph.tree.composites@.contains(*link),
    ensures
        region == region_of(*scene, *link, before, after),
        region matches Some(region) ==> region_ok(*scene, region, before, after),
{
    proof {
        lemma_composite_fits(*scene, *link);
    }
    if matches!(link.placement, Placement::Reordered) || scene.link_belongs_to_decoration(link) {
        return None;
    }
    if !node_is_line_isolated(&scene.pair.before, link.before, false) || !node_is_line_isolated(
        &scene.pair.after,
        link.after,
        false,
    ) {
        return None;
    }
    let old_rows = zero_based_lines(&scene.pair.before, link.before);
    let new_rows = zero_based_lines(&scene.pair.after, link.after);
    if old_rows.is_empty() || new_rows.is_empty() || old_rows.start < before.start || old_rows.end
        > before.end || new_rows.start < after.start || new_rows.end > after.end {
        return None;
    }
    let old_facts = scene.anchors.before[link.before];
    let new_facts = scene.anchors.after[link.after];
    if old_facts.has_opaque || new_facts.has_opaque || !old_facts.has_payload
        || !new_facts.has_payload {
        return None;
    }
    if !same_line_endings(scene.pair, old_rows, new_rows) {
        return None;
    }
    let retention = if physical_lines_equal(scene.pair, old_rows, new_rows) && !link.reparented() {
        Retention::Exact
    } else {
        Retention::Reflow
    };
    Some(RetainedRegion { before: old_rows, after: new_rows, retention })
}

/// Matched subtrees exist.
pub proof fn lemma_composite_fits(scene: PlanScene<'_>, link: NodeLink)
    requires
        scene.wf(),
        scene.graph.tree.composites@.contains(link),
    ensures
        scene.pair.before.has_node(link.before as int),
        scene.pair.after.has_node(link.after as int),
        is_retained(
            scene,
            row_span(scene.pair.before, link.before as int),
            row_span(scene.pair.after, link.after as int),
        ),
{
    let composites = scene.graph.tree.composites@;
    let k = choose|k: int| 0 <= k < composites.len() && composites[k] == link;
    assert(crate::correspondence::tree::composites_fit(
        composites,
        scene.pair.before.nodes@.len() as int,
        scene.pair.after.nodes@.len() as int,
    ));
    assert(composites[k].before < scene.pair.before.nodes@.len());
}

/// Some other place comes earlier in the first revision but later in the second.
pub open spec fn is_overtaken(before: Seq<usize>, after: Seq<usize>, i: int) -> bool {
    exists|j: int|
        0 <= j < before.len() && (#[trigger] before[j]) < before[i] && after[j] > after[i]
}

/// Places that another place overtakes.
fn overtaken(before: &Vec<usize>, after: &Vec<usize>) -> (flags: Vec<bool>)
    requires
        before@.len() == after@.len(),
    ensures
        flags@.len() == before@.len(),
        forall|i: int|
            0 <= i < flags@.len() ==> (#[trigger] flags@[i]) == is_overtaken(before@, after@, i),
{
    let count = before.len();
    let mut places: Vec<SortKey> = Vec::new();
    let mut keys: Vec<SortKey> = Vec::new();
    let mut flags: Vec<bool> = Vec::new();
    let mut index: usize = 0;
    while index < count
        invariant
            count == before@.len(),
            before@.len() == after@.len(),
            index <= count,
            places@.len() == index,
            keys@ == places@,
            flags@.len() == index,
            forall|i: int|
                0 <= i < index ==> (#[trigger] places@[i]) == (SortKey {
                    first: before@[i],
                    second: after@[i],
                    third: i as usize,
                    fourth: 0,
                }),
        decreases count - index,
    {
        let place = SortKey::new(before[index], after[index], index, 0);
        places.push(place);
        keys.push(place);
        flags.push(false);
        index += 1;
    }
    let ghost listed = places@;
    let ghost identity = |place: SortKey| place;
    let sorted = sorted_by_keys(places, keys, Ghost(identity));
    proof {
        assert forall|i: int, j: int| 0 <= i < j < sorted@.len() implies (
        #[trigger] sorted@[i]).first <= (#[trigger] sorted@[j]).first by {
            assert(!key_less(identity(sorted@[j]), identity(sorted@[i])));
        }
        assert forall|k: int| 0 <= k < sorted@.len() implies (#[trigger] sorted@[k]).third < count
            && listed[sorted@[k].third as int] == sorted@[k] by {
            assert(sorted@.contains(sorted@[k]));
            assert(listed.contains(sorted@[k]));
        }
        assert forall|i: int| 0 <= i < count implies sorted@.contains(#[trigger] listed[i]) by {
            assert(listed.contains(listed[i]));
        }
    }
    let mut closed: Option<usize> = None;
    let mut open: Option<usize> = None;
    let mut at: usize = 0;
    while at < sorted.len()
        invariant
            count == before@.len(),
            before@.len() == after@.len(),
            sorted@.len() == count,
            flags@.len() == count,
            at <= sorted@.len(),
            listed.len() == count,
            forall|i: int|
                0 <= i < count ==> (#[trigger] listed[i]) == (SortKey {
                    first: before@[i],
                    second: after@[i],
                    third: i as usize,
                    fourth: 0,
                }),
            forall|i: int, j: int|
                0 <= i < j < sorted@.len() ==> (#[trigger] sorted@[i]).first <= (
                #[trigger] sorted@[j]).first,
            forall|k: int|
                0 <= k < sorted@.len() ==> (#[trigger] sorted@[k]).third < count
                    && listed[sorted@[k].third as int] == sorted@[k],
            forall|i: int| 0 <= i < count ==> sorted@.contains(#[trigger] listed[i]),
            at > 0 ==> is_highest(sorted@.take(at as int), sorted@[at - 1].first as int, closed),
            at > 0 ==> is_highest(sorted@.take(at as int), sorted@[at - 1].first + 1, open),
            at == 0 ==> closed is None && open is None,
            forall|k: int|
                0 <= k < at ==> flags@[(#[trigger] sorted@[k]).third as int] == is_overtaken(
                    before@,
                    after@,
                    sorted@[k].third as int,
                ),
        decreases sorted@.len() - at,
    {
        let place = sorted[at];
        let ghost seen = sorted@.take(at as int);
        let ghost grown = sorted@.take(at + 1);
        assert(grown =~= seen.push(place));
        if at == 0 || sorted[at - 1].first < place.first {
            proof {
                if at > 0 {
                    assert forall|k: int| 0 <= k < seen.len() implies (#[trigger] seen[k]).first
                        < place.first by {
                        assert(sorted@[k].first <= sorted@[at - 1].first);
                    }
                    lemma_higher_limit(
                        seen,
                        sorted@[at - 1].first + 1,
                        place.first as int,
                        open,
                    );
                }
            }
            closed = open;
        }
        assert(is_highest(seen, place.first as int, closed));
        let overtakes = match closed {
            Some(highest) => highest > place.second,
            None => false,
        };
        let wider = match open {
            Some(highest) => if highest >= place.second {
                highest
            } else {
                place.second
            },
            None => place.second,
        };
        proof {
            lemma_overtaken(before@, after@, listed, sorted@, at as int, closed);
            lemma_highest_push(seen, place, place.first as int, closed, closed);
            if at > 0 && sorted@[at - 1].first < place.first {
                lemma_higher_limit(seen, sorted@[at - 1].first + 1, place.first + 1, open);
            }
            if at == 0 {
                assert(is_highest(seen, place.first + 1, open));
            }
            lemma_highest_push(seen, place, place.first + 1, open, Some(wider));
        }
        open = Some(wider);
        let ghost earlier = flags@;
        flags.set(place.third, overtakes);
        proof {
            assert forall|k: int| 0 <= k < at + 1 implies flags@[(
            #[trigger] sorted@[k]).third as int] == is_overtaken(
                before@,
                after@,
                sorted@[k].third as int,
            ) by {
                if sorted@[k].third == place.third {
                    assert(sorted@[k] == place);
                } else {
                    assert(earlier[sorted@[k].third as int] == flags@[sorted@[k].third as int]);
                }
            }
        }
        at += 1;
    }
    proof {
        assert forall|i: int| 0 <= i < flags@.len() implies (#[trigger] flags@[i]) == is_overtaken(
            before@,
            after@,
            i,
        ) by {
            assert(sorted@.contains(listed[i]));
            let k = choose|k: int| 0 <= k < sorted@.len() && sorted@[k] == listed[i];
            assert(sorted@[k].third == i);
        }
    }
    flags
}

/// Highest second component of the places whose first component lies below the limit.
pub open spec fn is_highest(places: Seq<SortKey>, limit: int, highest: Option<usize>) -> bool {
    &&& forall|k: int|
        0 <= k < places.len() && (#[trigger] places[k]).first < limit ==> highest is Some
            && places[k].second <= highest->0
    &&& highest matches Some(value) ==> exists|k: int|
        0 <= k < places.len() && (#[trigger] places[k]).first < limit && places[k].second == value
}

/// A higher limit that admits no further place keeps the highest one.
proof fn lemma_higher_limit(places: Seq<SortKey>, low: int, high: int, highest: Option<usize>)
    requires
        low <= high,
        is_highest(places, low, highest),
        forall|k: int| 0 <= k < places.len() ==> (#[trigger] places[k]).first < low,
    ensures
        is_highest(places, high, highest),
{
    if highest is Some {
        let k = choose|k: int|
            0 <= k < places.len() && (#[trigger] places[k]).first < low && places[k].second
                == highest->0;
        assert(places[k].first < high);
    }
}

/// One more place either lies at the limit or takes part.
proof fn lemma_highest_push(
    places: Seq<SortKey>,
    place: SortKey,
    limit: int,
    highest: Option<usize>,
    grown: Option<usize>,
)
    requires
        is_highest(places, limit, highest),
        place.first >= limit ==> grown == highest,
        place.first < limit ==> grown == Some(
            match highest {
                Some(value) => if value >= place.second {
                    value
                } else {
                    place.second
                },
                None => place.second,
            },
        ),
    ensures
        is_highest(places.push(place), limit, grown),
{
    let all = places.push(place);
    assert(all[places.len() as int] == place);
    assert forall|k: int| 0 <= k < all.len() && (#[trigger] all[k]).first < limit implies grown is Some
        && all[k].second <= grown->0 by {
        if k < places.len() {
            assert(all[k] == places[k]);
        }
    }
    if grown is Some {
        if place.first < limit && grown == Some(place.second) {
            assert(all[places.len() as int].second == grown->0);
        } else {
            let k = choose|k: int|
                0 <= k < places.len() && (#[trigger] places[k]).first < limit && places[k].second
                    == highest->0;
            assert(all[k] == places[k]);
        }
    }
}

/// The highest earlier place tells whether a place is overtaken.
proof fn lemma_overtaken(
    before: Seq<usize>,
    after: Seq<usize>,
    listed: Seq<SortKey>,
    sorted: Seq<SortKey>,
    at: int,
    closed: Option<usize>,
)
    requires
        0 <= at < sorted.len(),
        before.len() == listed.len(),
        after.len() == listed.len(),
        forall|i: int|
            0 <= i < listed.len() ==> (#[trigger] listed[i]) == (SortKey {
                first: before[i],
                second: after[i],
                third: i as usize,
                fourth: 0,
            }),
        forall|i: int, j: int|
            0 <= i < j < sorted.len() ==> (#[trigger] sorted[i]).first <= (
            #[trigger] sorted[j]).first,
        forall|k: int|
            0 <= k < sorted.len() ==> (#[trigger] sorted[k]).third < listed.len()
                && listed[sorted[k].third as int] == sorted[k],
        forall|i: int| 0 <= i < listed.len() ==> sorted.contains(#[trigger] listed[i]),
        is_highest(sorted.take(at), sorted[at].first as int, closed),
    ensures
        is_overtaken(before, after, sorted[at].third as int) == (closed is Some && closed->0
            > sorted[at].second),
{
    let place = sorted[at];
    let i = place.third as int;
    let seen = sorted.take(at);
    assert(listed[i] == place);
    if is_overtaken(before, after, i) {
        let j = choose|j: int|
            0 <= j < before.len() && (#[trigger] before[j]) < before[i] && after[j] > after[i];
        assert(sorted.contains(listed[j]));
        let k = choose|k: int| 0 <= k < sorted.len() && sorted[k] == listed[j];
        assert(k < at) by {
            if k > at {
                assert(sorted[at].first <= sorted[k].first);
            }
        }
        assert(seen[k] == sorted[k]);
    }
    if closed is Some && closed->0 > place.second {
        let k = choose|k: int|
            0 <= k < seen.len() && (#[trigger] seen[k]).first < place.first && seen[k].second
                == closed->0;
        assert(seen[k] == sorted[k]);
        let j = sorted[k].third as int;
        assert(listed[j] == sorted[k]);
        assert(before[j] < before[i]);
    }
}

/// Two links name their nodes in opposite orders.
pub open spec fn links_cross(scene: PlanScene<'_>, left: NodeLink, right: NodeLink) -> bool {
    let left_before = scene.pair.before.nodes@[left.before as int].bytes.start;
    let left_after = scene.pair.after.nodes@[left.after as int].bytes.start;
    let right_before = scene.pair.before.nodes@[right.before as int].bytes.start;
    let right_after = scene.pair.after.nodes@[right.after as int].bytes.start;
    ||| left_before < right_before && left_after > right_after
    ||| left_before > right_before && left_after < right_after
}

/// Some link crosses the given one.
pub open spec fn crossed_by_any(scene: PlanScene<'_>, links: Seq<NodeLink>, i: int) -> bool {
    exists|j: int| 0 <= j < links.len() && links_cross(scene, links[i], #[trigger] links[j])
}

/// Regions participating in an order inversion cannot partition presentation.
pub fn structural_link_crossings(scene: &PlanScene<'_>, links: &Vec<NodeLink>) -> (crossed: Vec<bool>)
    requires
        scene.wf(),
        forall|k: int|
            0 <= k < links@.len() ==> scene.pair.before.has_node(
                (#[trigger] links@[k]).before as int,
            ) && scene.pair.after.has_node(links@[k].after as int),
    ensures
        crossed@.len() == links@.len(),
        forall|i: int|
            0 <= i < crossed@.len() ==> (#[trigger] crossed@[i]) == crossed_by_any(
                *scene,
                links@,
                i,
            ),
{
    let mut before: Vec<usize> = Vec::new();
    let mut after: Vec<usize> = Vec::new();
    let mut mirrored_before: Vec<usize> = Vec::new();
    let mut mirrored_after: Vec<usize> = Vec::new();
    let mut index: usize = 0;
    while index < links.len()
        invariant
            scene.wf(),
            forall|k: int|
                0 <= k < links@.len() ==> scene.pair.before.has_node(
                    (#[trigger] links@[k]).before as int,
                ) && scene.pair.after.has_node(links@[k].after as int),
            index <= links@.len(),
            before@.len() == index,
            after@.len() == index,
            mirrored_before@.len() == index,
            mirrored_after@.len() == index,
            forall|k: int|
                0 <= k < index ==> (#[trigger] before@[k])
                    == scene.pair.before.nodes@[links@[k].before as int].bytes.start,
            forall|k: int|
                0 <= k < index ==> (#[trigger] after@[k])
                    == scene.pair.after.nodes@[links@[k].after as int].bytes.start,
            forall|k: int|
                0 <= k < index ==> (#[trigger] mirrored_before@[k]) == usize::MAX - before@[k],
            forall|k: int|
                0 <= k < index ==> (#[trigger] mirrored_after@[k]) == usize::MAX - after@[k],
        decreases links@.len() - index,
    {
        let link = links[index];
        let old_start = scene.pair.before.nodes[link.before].bytes.start;
        let new_start = scene.pair.after.nodes[link.after].bytes.start;
        before.push(old_start);
        after.push(new_start);
        mirrored_before.push(usize::MAX - old_start);
        mirrored_after.push(usize::MAX - new_start);
        index += 1;
    }
    let forward = overtaken(&before, &after);
    let backward = overtaken(&mirrored_before, &mirrored_after);
    let mut crossed: Vec<bool> = Vec::new();
    let mut at: usize = 0;
    while at < links.len()
        invariant
            at <= links@.len(),
            before@.len() == links@.len(),
            after@.len() == links@.len(),
            mirrored_before@.len() == links@.len(),
            mirrored_after@.len() == links@.len(),
            forward@.len() == links@.len(),
            backward@.len() == links@.len(),
            forall|k: int|
                0 <= k < links@.len() ==> (#[trigger] before@[k])
                    == scene.pair.before.nodes@[links@[k].before as int].bytes.start,
            forall|k: int|
                0 <= k < links@.len() ==> (#[trigger] after@[k])
                    == scene.pair.after.nodes@[links@[k].after as int].bytes.start,
            forall|k: int|
                0 <= k < links@.len() ==> (#[trigger] mirrored_before@[k]) == usize::MAX
                    - before@[k],
            forall|k: int|
                0 <= k < links@.len() ==> (#[trigger] mirrored_after@[k]) == usize::MAX - after@[k],
            forall|i: int|
                0 <= i < links@.len() ==> (#[trigger] forward@[i]) == is_overtaken(
                    before@,
                    after@,
                    i,
                ),
            forall|i: int|
                0 <= i < links@.len() ==> (#[trigger] backward@[i]) == is_overtaken(
                    mirrored_before@,
                    mirrored_after@,
                    i,
                ),
            crossed@.len() == at,
            forall|i: int|
                0 <= i < at ==> (#[trigger] crossed@[i]) == crossed_by_any(*scene, links@, i),
        decreases links@.len() - at,
    {
        proof {
            let i = at as int;
            if crossed_by_any(*scene, links@, i) {
                let j = choose|j: int|
                    0 <= j < links@.len() && links_cross(*scene, links@[i], #[trigger] links@[j]);
                assert(before@[j] < before@[i] || mirrored_before@[j] < mirrored_before@[i]);
                assert(mirrored_after@[j] == usize::MAX - after@[j]);
            }
            if is_overtaken(before@, after@, i) {
                let j = choose|j: int|
                    0 <= j < before@.len() && (#[trigger] before@[j]) < before@[i] && after@[j]
                        > after@[i];
                assert(links_cross(*scene, links@[i], links@[j]));
            }
            if is_overtaken(mirrored_before@, mirrored_after@, i) {
                let j = choose|j: int|
                    0 <= j < mirrored_before@.len() && (#[trigger] mirrored_before@[j])
                        < mirrored_before@[i] && mirrored_after@[j] > mirrored_after@[i];
                assert(links_cross(*scene, links@[i], links@[j]));
            }
        }
        crossed.push(forward[at] || backward[at]);
        at += 1;
    }
    crossed
}

/// The region comes from one of the links.
pub open spec fn retained_by(
    scene: PlanScene<'_>,
    links: Seq<NodeLink>,
    region: RetainedRegion,
    before: Span,
    after: Span,
) -> bool {
    exists|k: int|
        0 <= k < links.len() && region_of(scene, #[trigger] links[k], before, after) == Some(region)
}

/// Key by which regions are taken: earliest first, and the longest of those.
pub open spec fn region_key(region: RetainedRegion) -> SortKey {
    SortKey {
        first: region.before.start,
        second: (usize::MAX - (region.before.end - region.before.start)) as usize,
        third: region.after.start,
        fourth: 0,
    }
}

/// Stable links of the first ones that belong to no decoration.
pub open spec fn stable_links(
    scene: PlanScene<'_>,
    links: Seq<NodeLink>,
    count: int,
) -> Seq<NodeLink>
    decreases count,
{
    if count <= 0 {
        Seq::empty()
    } else {
        let earlier = stable_links(scene, links, count - 1);
        let link = links[count - 1];
        if link.placement == Placement::Stable && !in_decoration(
            scene.pair.before,
            link.before as int,
        ) && !in_decoration(scene.pair.after, link.after as int) {
            earlier.push(link)
        } else {
            earlier
        }
    }
}

/// One of the first links retains the region and crosses none.
pub open spec fn is_candidate(
    scene: PlanScene<'_>,
    links: Seq<NodeLink>,
    count: int,
    region: RetainedRegion,
    before: Span,
    after: Span,
) -> bool {
    exists|k: int|
        0 <= k < count && !crossed_by_any(scene, links, k) && region_of(
            scene,
            #[trigger] links[k],
            before,
            after,
        ) == Some(region)
}

/// Regions of the first candidates that follow those taken before them.
pub open spec fn taken_regions(
    candidates: Seq<RetainedRegion>,
    count: int,
    before: Span,
    after: Span,
) -> Seq<RetainedRegion>
    decreases count,
{
    if count <= 0 {
        Seq::empty()
    } else {
        let earlier = taken_regions(candidates, count - 1, before, after);
        let next = candidates[count - 1];
        let follows = if earlier.len() > 0 {
            next.before.start >= earlier.last().before.end && next.after.start
                >= earlier.last().after.end
        } else {
            next.before.start >= before.start && next.after.start >= after.start
        };
        if follows {
            earlier.push(next)
        } else {
            earlier
        }
    }
}

/// The candidates are exactly the regions of stable, uncrossed links, earliest and longest first.
pub open spec fn are_candidates(
    scene: PlanScene<'_>,
    composites: Seq<NodeLink>,
    candidates: Seq<RetainedRegion>,
    before: Span,
    after: Span,
) -> bool {
    let links = stable_links(scene, composites, composites.len() as int);
    &&& forall|region: RetainedRegion| #[trigger]
        candidates.contains(region) <==> is_candidate(
            scene,
            links,
            links.len() as int,
            region,
            before,
            after,
        )
    &&& items_ascend(candidates, |region: RetainedRegion| region_key(region))
}

/// Every candidate that follows the regions taken before it is taken.
pub open spec fn takes_regions(
    scene: PlanScene<'_>,
    composites: Seq<NodeLink>,
    before: Span,
    after: Span,
    regions: Seq<RetainedRegion>,
) -> bool {
    exists|candidates: Seq<RetainedRegion>| #[trigger]
        are_candidates(scene, composites, candidates, before, after) && regions == taken_regions(
            candidates,
            candidates.len() as int,
            before,
            after,
        )
}

/// Regions of stable, uncrossed links, as far as each follows those before it.
pub fn retained_regions(scene: &PlanScene<'_>, composites: &[NodeLink], before: Span, after: Span) -> (
    regions: Vec<RetainedRegion>)
    requires
        scene.wf(),
        forall|k: int|
            0 <= k < composites@.len() ==> scene.graph.tree.composites@.contains(
                #[trigger] composites@[k],
            ),
    ensures
        regions_in_order(regions@),
        forall|k: int|
            0 <= k < regions@.len() ==> region_ok(*scene, #[trigger] regions@[k], before, after)
                && retained_by(*scene, composites@, regions@[k], before, after),
        takes_regions(*scene, composites@, before, after, regions@),
{
    // Only locally eligible anchors vote on global order. Decorations follow semantic owners,
    // and reordered links cannot partition stable source.
    let mut eligible: Vec<NodeLink> = Vec::new();
    let mut index: usize = 0;
    while index < composites.len()
        invariant
            scene.wf(),
            index <= composites@.len(),
            eligible@ == stable_links(*scene, composites@, index as int),
            forall|k: int|
                0 <= k < composites@.len() ==> scene.graph.tree.composites@.contains(
                    #[trigger] composites@[k],
                ),
            forall|k: int|
                0 <= k < eligible@.len() ==> scene.pair.before.has_node(
                    (#[trigger] eligible@[k]).before as int,
                ) && scene.pair.after.has_node(eligible@[k].after as int) && composites@.contains(
                    eligible@[k],
                ) && scene.graph.tree.composites@.contains(eligible@[k]),
        decreases composites@.len() - index,
    {
        let link = composites[index];
        assert(composites@[index as int] == link);
        proof {
            lemma_composite_fits(*scene, link);
        }
        if matches!(link.placement, Placement::Stable) && !scene.link_belongs_to_decoration(&link) {
            eligible.push(link);
        }
        index += 1;
    }
    let crossed = structural_link_crossings(scene, &eligible);
    let mut candidates: Vec<RetainedRegion> = Vec::new();
    let mut keys: Vec<SortKey> = Vec::new();
    let mut at: usize = 0;
    while at < eligible.len()
        invariant
            scene.wf(),
            at <= eligible@.len(),
            crossed@.len() == eligible@.len(),
            forall|i: int|
                0 <= i < crossed@.len() ==> (#[trigger] crossed@[i]) == crossed_by_any(
                    *scene,
                    eligible@,
                    i,
                ),
            forall|region: RetainedRegion| #[trigger]
                candidates@.contains(region) <==> is_candidate(
                    *scene,
                    eligible@,
                    at as int,
                    region,
                    before,
                    after,
                ),
            forall|k: int|
                0 <= k < eligible@.len() ==> scene.pair.before.has_node(
                    (#[trigger] eligible@[k]).before as int,
                ) && scene.pair.after.has_node(eligible@[k].after as int) && composites@.contains(
                    eligible@[k],
                ) && scene.graph.tree.composites@.contains(eligible@[k]),
            keys@.len() == candidates@.len(),
            forall|k: int|
                0 <= k < candidates@.len() ==> region_key(#[trigger] candidates@[k]) == keys@[k],
            forall|k: int|
                0 <= k < candidates@.len() ==> region_ok(
                    *scene,
                    #[trigger] candidates@[k],
                    before,
                    after,
                ) && retained_by(*scene, composites@, candidates@[k], before, after),
        decreases eligible@.len() - at,
    {
        let ghost fewer = candidates@;
        if !crossed[at] {
            if let Some(region) = retained_region(scene, &eligible[at], before, after) {
                proof {
                    assert(composites@.contains(eligible@[at as int]));
                    let k = choose|k: int|
                        0 <= k < composites@.len() && composites@[k] == eligible@[at as int];
                    assert(region_of(*scene, composites@[k], before, after) == Some(region));
                }
                candidates.push(region);
                keys.push(
                    SortKey::new(
                        region.before.start,
                        usize::MAX - (region.before.end - region.before.start),
                        region.after.start,
                        0,
                    ),
                );
            }
        }
        proof {
            assert forall|region: RetainedRegion| #[trigger] candidates@.contains(region)
                <==> is_candidate(*scene, eligible@, at + 1, region, before, after) by {
                assert(fewer.contains(region) <==> is_candidate(
                    *scene,
                    eligible@,
                    at as int,
                    region,
                    before,
                    after,
                ));
                if fewer.contains(region) {
                    let k = choose|k: int| 0 <= k < fewer.len() && fewer[k] == region;
                    assert(candidates@[k] == region);
                }
                if candidates@.contains(region) && !fewer.contains(region) {
                    let k = choose|k: int| 0 <= k < candidates@.len() && candidates@[k] == region;
                    if k < fewer.len() {
                        assert(fewer[k] == region);
                    }
                    assert(region_of(*scene, eligible@[at as int], before, after) == Some(region));
                }
                if is_candidate(*scene, eligible@, at + 1, region, before, after) {
                    let k = choose|k: int|
                        0 <= k < at + 1 && !crossed_by_any(*scene, eligible@, k) && region_of(
                            *scene,
                            #[trigger] eligible@[k],
                            before,
                            after,
                        ) == Some(region);
                    if k < at {
                        assert(is_candidate(
                            *scene,
                            eligible@,
                            at as int,
                            region,
                            before,
                            after,
                        ));
                    } else {
                        assert(candidates@[fewer.len() as int] == region);
                    }
                }
                if is_candidate(*scene, eligible@, at as int, region, before, after) {
                    let k = choose|k: int|
                        0 <= k < at && !crossed_by_any(*scene, eligible@, k) && region_of(
                            *scene,
                            #[trigger] eligible@[k],
                            before,
                            after,
                        ) == Some(region);
                    assert(region_of(*scene, eligible@[k], before, after) == Some(region));
                }
            }
        }
        at += 1;
    }
    let ghost listed = candidates@;
    let sorted = sorted_by_keys(candidates, keys, Ghost(|region: RetainedRegion| region_key(region)));
    let mut regions: Vec<RetainedRegion> = Vec::new();
    let mut before_floor = before.start;
    let mut after_floor = after.start;
    let mut position: usize = 0;
    while position < sorted.len()
        invariant
            forall|region: RetainedRegion| #[trigger]
                sorted@.contains(region) <==> listed.contains(region),
            forall|k: int|
                0 <= k < listed.len() ==> region_ok(*scene, #[trigger] listed[k], before, after)
                    && retained_by(*scene, composites@, listed[k], before, after),
            position <= sorted@.len(),
            regions@ == taken_regions(sorted@, position as int, before, after),
            before_floor == (if regions@.len() > 0 {
                regions@.last().before.end
            } else {
                before.start
            }),
            after_floor == (if regions@.len() > 0 {
                regions@.last().after.end
            } else {
                after.start
            }),
            forall|k: int|
                0 <= k < regions@.len() ==> (#[trigger] regions@[k]).before.end <= before_floor
                    && regions@[k].after.end <= after_floor,
            regions_in_order(regions@),
            forall|k: int|
                0 <= k < regions@.len() ==> region_ok(*scene, #[trigger] regions@[k], before, after)
                    && retained_by(*scene, composites@, regions@[k], before, after),
        decreases sorted@.len() - position,
    {
        let candidate = sorted[position];
        proof {
            assert(sorted@[position as int] == candidate);
            assert(sorted@.contains(candidate));
            assert(listed.contains(candidate));
            let k = choose|k: int| 0 <= k < listed.len() && listed[k] == candidate;
            assert(region_ok(*scene, listed[k], before, after));
        }
        if candidate.before.start >= before_floor && candidate.after.start >= after_floor {
            before_floor = candidate.before.end;
            after_floor = candidate.after.end;
            regions.push(candidate);
        }
        position += 1;
    }
    proof {
        assert forall|region: RetainedRegion| #[trigger] sorted@.contains(region) <==> is_candidate(
            *scene,
            eligible@,
            eligible@.len() as int,
            region,
            before,
            after,
        ) by {
            assert(sorted@.contains(region) <==> listed.contains(region));
        }
        assert(are_candidates(*scene, composites@, sorted@, before, after));
    }
    regions
}

} // verus!

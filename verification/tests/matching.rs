use mig::alignment::{ordered_matches, OrderedMatch};
use mig::correspondence::geometry::RowTexts;
use mig::correspondence::lines::physical_line_correspondence_in;
use mig::correspondence::links::{MatchedUnit, UnitEdit};
use mig::correspondence::{correspond, Correspondence};
use mig::frontend::syntax_pair;
use mig::span::Span;

#[test]
fn large_anchorless_gap_uses_the_bounded_fallback() {
    let before = vec![7; 200];
    let after = vec![7; 200];
    let matches = ordered_matches(&before, &after);

    assert_eq!(matches.len(), 200);
    assert_eq!(matches.first(), Some(&OrderedMatch { before: 0, after: 0 }));
    assert_eq!(matches.last(), Some(&OrderedMatch { before: 199, after: 199 }));
}

#[test]
fn exact_leaf_cannot_cross_between_sealed_sibling_parents() {
    let pair = syntax_pair(
        "alpha.rs",
        "fn alpha() { beta(gamma); delta(epsilon); }\n",
        "fn alpha() { beta(epsilon); delta(gamma); }\n",
        false,
    )
    .expect("Rust syntax");
    let graph = correspond(&pair);
    let unit = only_matched(&graph);

    assert!(!graph.tree.unit_leaf_links(unit).iter().any(|link| {
        pair.before.leaf_text(link.before) == Some("gamma")
            && pair.after.leaf_text(link.after) == Some("gamma")
    }));
}

#[test]
fn unequal_physical_gaps_do_not_invent_line_ending_pairs() {
    let pair = syntax_pair(
        "alpha.txt",
        "alpha\nbeta\ngamma\n",
        "alpha\ndelta\r\nepsilon\ngamma\n",
        false,
    )
    .expect("line syntax");
    let before = Span { start: 0, end: pair.before.source.lines().len() };
    let after = Span { start: 0, end: pair.after.source.lines().len() };
    let texts = RowTexts::of_rows(&pair.before.source, before, &pair.after.source, after);

    let physical = physical_line_correspondence_in(&pair, &texts, before, after);

    assert!(physical.links.iter().all(|link| {
        pair.before.source.lines()[link.before].ending == pair.after.source.lines()[link.after].ending
    }));
}

fn only_matched(graph: &Correspondence) -> &MatchedUnit {
    let mut matched = graph.tree.units.iter().filter_map(|edit| {
        let UnitEdit::Matched(unit) = edit else {
            return None;
        };
        Some(unit)
    });
    let unit = matched.next().expect("one matched unit");
    assert!(matched.next().is_none(), "expected exactly one matched unit");
    unit
}

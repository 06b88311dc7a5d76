use mig::change::{AfterGap, Signal};
use mig::context::review_selection_ranges;
use mig::entry::{display_pair_path, size_notice, FileNotice};
use mig::span::Span;

#[test]
fn signals_define_one_buoyancy_and_context_policy() {
    let buoyancy = [
        Signal::Edit.buoyancy(),
        Signal::Move.buoyancy(),
        Signal::Wiring.buoyancy(),
        Signal::Reflow.buoyancy(),
    ];
    assert!(buoyancy.windows(2).all(|pair| pair[0] > pair[1]));
    assert!(Signal::Edit.receives_context());
    assert!(!Signal::Move.receives_context());
    assert!(Signal::Wiring.receives_context());
    assert!(Signal::Reflow.receives_context());
}

#[test]
fn after_gap_counts_preceding_current_lines() {
    assert_eq!(AfterGap::before_first().preceding_lines(), 0);
    assert_eq!(AfterGap::new(99).preceding_lines(), 99);
}

#[test]
fn breadcrumb_selection_normalizes_order_duplicates_touching_ranges_and_one_context_gap() {
    let ranges = review_selection_ranges(
        Span { start: 4, end: 7 },
        &vec![9, 3, 2, 7, 9, 12],
        |index: usize| index == 8,
    );

    assert_eq!(ranges, [Span { start: 2, end: 10 }, Span { start: 12, end: 13 }]);
}

#[test]
fn shared_file_names_hide_temporary_directories() {
    let path = display_pair_path("/alpha/beta.rs", "/gamma/beta.rs");

    assert_eq!(path, "beta.rs");
}

#[test]
fn distinct_file_names_preserve_the_current_path() {
    let path = display_pair_path("old.rs", "src/current.rs");

    assert_eq!(path, "src/current.rs");
}

#[test]
fn oversized_commit_blob_stays_visible_without_loading_its_pair() {
    let review = size_notice("large.txt", Some(1), Some(5), 4);

    assert!(matches!(
        review,
        Some(FileNotice::TooLarge {
            path,
            before_bytes: Some(1),
            after_bytes: Some(5),
            limit_bytes: 4,
        }) if path == "large.txt"
    ));
}

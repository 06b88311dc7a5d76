use mig::alignment::{
    greedy_matches, increasing_subsequence_members, lcs_matches, locality_first_matches,
    ordered_matches, unordered_matches, OrderedMatch,
};
use mig::change::{AfterGap, Signal};
use mig::context::{context_gap_fits_halos, include_range, ranges_overlap, review_selection_ranges};
use mig::correspondence::correspond;
use mig::correspondence::fallbacks::normalize_line_fallbacks;
use mig::correspondence::links::{
    LeafRelation, LineFallback, LineLink, Placement, UnitEdit,
};
use mig::diff::{diff_file, DiffError, MAX_REVISION_LINES};
use mig::entry::{
    display_pair_path, is_binary, order_reviews, plan_change, review_source_pair, select_request,
    size_notice, ChangePlan, FileNotice, Request, ReviewEntry, TreeChange,
};
use mig::frontend::{fallback_reason, language_for_path, syntax_pair};
use mig::grammar::ParseFailure;
use mig::plan::order::{LineAlignment, SourceOrder};
use mig::plan::plan_hunks;
use mig::plan::sequence::change_source_order;
use mig::presentation::{word_parts, DiffMark, PresentedFile, ReviewRow};
use mig::review::{SourceChange, SourceEdit};
use mig::source::{LineEnding, Source};
use mig::span::Span;
use mig::syntax::{FallbackReason, Language, ParseSide, ProjectionHealth};

fn review(path: &str, before: &str, after: &str) -> PresentedFile {
    diff_file(path, before, after).expect("a review")
}

fn edge(before: usize, after: usize) -> OrderedMatch {
    OrderedMatch { before, after }
}

fn replace(before: &[usize], after: &[usize]) -> SourceChange {
    let edits = |numbers: &[usize]| {
        numbers
            .iter()
            .map(|number| SourceEdit { number: *number, changed_bytes: Vec::new() })
            .collect::<Vec<_>>()
    };
    SourceChange::Replace { before: edits(before), after: edits(after), line_endings: Vec::new() }
}

#[test]
fn equal_revisions_have_no_hunks() {
    for text in ["", "alpha", "alpha\r\nbeta\n", "fn alpha() {}\n"] {
        assert!(review("alpha.rs", text, text).hunks.is_empty());
        assert!(review("alpha.txt", text, text).hunks.is_empty());
    }
}

#[test]
fn equal_oversized_revisions_are_not_refused() {
    let long = "\n".repeat(MAX_REVISION_LINES + 1);

    assert!(review("alpha.txt", &long, &long).hunks.is_empty());
}

#[test]
fn an_oversized_revision_is_refused_on_either_side() {
    let long = "\n".repeat(MAX_REVISION_LINES + 1);

    assert_eq!(diff_file("alpha.txt", &long, "beta\n"), Err(DiffError::TooManyLines));
    assert_eq!(diff_file("alpha.txt", "beta\n", &long), Err(DiffError::TooManyLines));
}

#[test]
fn every_changed_line_of_plain_text_is_shown_once() {
    let file = review("alpha.txt", "one\ntwo\nthree\n", "one\n2\nthree\nfour\n");
    let mut removed = Vec::new();
    let mut added = Vec::new();
    for row in file.hunks.iter().flat_map(|hunk| &hunk.rows) {
        match row {
            ReviewRow::Removed(row) => removed.push(row.number),
            ReviewRow::Added(row) => added.push(row.number),
            _ => {}
        }
    }
    removed.sort_unstable();
    added.sort_unstable();

    assert_eq!(removed, [2]);
    assert_eq!(added, [2, 4]);
}

#[test]
fn the_file_boundary_comes_once_and_last() {
    let file = review("alpha.txt", "one\ntwo\n", "one\n2\n");
    let rows = file.hunks.iter().flat_map(|hunk| &hunk.rows).collect::<Vec<_>>();
    let boundaries = rows.iter().filter(|row| ***row == ReviewRow::FileBoundary).count();

    assert_eq!(boundaries, 1);
    assert_eq!(**rows.last().expect("a row"), ReviewRow::FileBoundary);
}

#[test]
fn a_generated_marker_near_the_top_is_declared_by_either_revision() {
    assert!(review("alpha.rs", "// @generated\n", "").generated);
    assert!(review("alpha.rs", "", "# @generated by beta\n").generated);
    assert!(!review("alpha.rs", "", "let alpha = \"@generated\";\n").generated);
    let deep = format!("{}// @generated\n", "\n".repeat(20));
    assert!(!review("alpha.rs", "", &deep).generated);
    let last = format!("{}// @generated\n", "\n".repeat(19));
    assert!(review("alpha.rs", "", &last).generated);
}

#[test]
fn letters_beside_a_marker_keep_it_from_counting() {
    assert!(!review("alpha.rs", "", "// @generatedly\n").generated);
    assert!(!review("alpha.rs", "", "// @generated\u{e9}\n").generated);
    assert!(!review("alpha.rs", "", "// \u{e9}@generated\n").generated);
    assert!(!review("alpha.rs", "", "// @generated/alpha\n").generated);
    assert!(review("alpha.rs", "", "// \u{a7}@generated\u{a7}\n").generated);
}

#[test]
fn a_longest_increasing_selection_is_marked() {
    let members = increasing_subsequence_members(&[3, 1, 2, 0, 4]);

    assert_eq!(members, [false, true, true, false, true]);
}

#[test]
fn a_longest_common_subsequence_is_found() {
    let matches = lcs_matches(&[1, 2, 3, 4], &[2, 4, 3, 4]);

    assert_eq!(matches.len(), 3);
    assert!(matches.windows(2).all(|pair| pair[0].before < pair[1].before
        && pair[0].after < pair[1].after));
}

#[test]
fn greedy_matching_takes_the_first_partner() {
    assert_eq!(greedy_matches(&[7, 8], &[8, 7, 8]), [edge(0, 1), edge(1, 2)]);
}

#[test]
fn an_ordered_matching_leaves_no_pair_that_still_fits() {
    let before = [5, 6, 7, 5, 8];
    let after = [6, 5, 7, 8, 5];
    let matches = ordered_matches(&before, &after);
    for (x, left) in before.iter().enumerate() {
        for (y, right) in after.iter().enumerate() {
            if left == right {
                assert!(matches.iter().any(|edge| !(edge.before < x && edge.after < y)
                    && !(edge.before > x && edge.after > y)));
            }
        }
    }
}

#[test]
fn a_local_chain_leaves_no_pair_that_still_fits() {
    let before = [1, 2, 1, 3];
    let after = [1, 1, 2, 3];
    let matches = locality_first_matches(&before, &after);
    for (x, left) in before.iter().enumerate() {
        for (y, right) in after.iter().enumerate() {
            if left == right {
                assert!(matches.iter().any(|edge| !(edge.before < x && edge.after < y)
                    && !(edge.before > x && edge.after > y)));
            }
        }
    }
}

#[test]
fn equal_sequences_match_position_by_position() {
    let values = [4, 4, 9, 4];

    assert_eq!(
        ordered_matches(&values, &values),
        [edge(0, 0), edge(1, 1), edge(2, 2), edge(3, 3)]
    );
}

#[test]
fn occurrences_match_in_order_whatever_they_cross() {
    assert_eq!(
        unordered_matches(&[1, 2, 1], &[2, 1, 1]),
        [edge(0, 1), edge(1, 0), edge(2, 2)]
    );
}

#[test]
fn buoyancy_ranks_every_signal_apart() {
    let signals = [Signal::Edit, Signal::Move, Signal::Wiring, Signal::Reflow];
    for (i, left) in signals.iter().enumerate() {
        for (j, right) in signals.iter().enumerate() {
            assert_eq!(left.buoyancy() == right.buoyancy(), i == j);
        }
    }
    assert_eq!(
        Signal::Reflow.buoyancy().stronger(Signal::Move.buoyancy()),
        Signal::Move.buoyancy()
    );
}

#[test]
fn selections_cover_the_signal_and_every_breadcrumb() {
    let ranges = review_selection_ranges(Span { start: 2, end: 3 }, &vec![0, 8], |_: usize| false);

    assert_eq!(
        ranges,
        [Span { start: 0, end: 1 }, Span { start: 2, end: 3 }, Span { start: 8, end: 9 }]
    );
    assert!(context_gap_fits_halos(0));
}

#[test]
fn ranges_grow_to_what_they_take_in() {
    let mut range = None;
    include_range(&mut range, None);
    assert_eq!(range, None);
    include_range(&mut range, Some(Span { start: 4, end: 6 }));
    include_range(&mut range, Some(Span { start: 1, end: 2 }));
    assert_eq!(range, Some(Span { start: 1, end: 6 }));
    assert!(ranges_overlap(&Span { start: 1, end: 3 }, &Span { start: 2, end: 5 }));
    assert!(!ranges_overlap(&Span { start: 1, end: 2 }, &Span { start: 2, end: 5 }));
}

#[test]
fn source_lines_partition_the_text() {
    let source = Source::new("alpha\r\nbeta\n\ngamma");
    let endings = source.lines().iter().map(|line| line.ending).collect::<Vec<_>>();
    let mut at = 0;
    for line in source.lines() {
        assert_eq!(line.full_bytes.start, at);
        at = line.full_bytes.end;
    }

    assert_eq!(at, source.byte_len());
    assert_eq!(
        endings,
        [LineEnding::CrLf, LineEnding::Lf, LineEnding::Lf, LineEnding::Missing]
    );
    assert_eq!(source.slice(0, 5), Some("alpha"));
    assert_eq!(Source::new("\u{e9}").slice(0, 1), None);
}

#[test]
fn word_parts_spell_both_texts() {
    let word = word_parts(Some(3), Some(4), "use alpha::Beta;", "use alpha::Gamma;");

    assert_eq!(word.before_line, Some(3));
    assert_eq!(word.after_line, Some(4));
    assert_eq!(word.prefix, "use alpha::");
    assert_eq!(word.removed, "Bet");
    assert_eq!(word.added, "Gamm");
    assert_eq!(word.suffix, "a;");
}

#[test]
fn rows_spell_their_lines() {
    let file = review("alpha.rs", "fn alpha() { 1; }\n", "fn alpha() { 2; }\n");
    let mut marked = 0;
    for row in file.hunks.iter().flat_map(|hunk| &hunk.rows) {
        if let ReviewRow::Added(row) = row {
            let text = row.spans.iter().map(|span| span.text.as_str()).collect::<String>();
            assert_eq!(text, "fn alpha() { 2; }");
            marked += row.spans.iter().filter(|span| span.mark == DiffMark::Added).count();
        }
    }

    assert!(marked > 0);
}

#[test]
fn extensions_choose_their_grammar_in_any_case() {
    assert_eq!(language_for_path("src/alpha.RS"), Some(Language::Rust));
    assert_eq!(language_for_path("alpha.Htm"), Some(Language::Html));
    assert_eq!(language_for_path("alpha.cts"), Some(Language::TypeScript));
    assert_eq!(language_for_path("alpha.h"), Some(Language::C));
    assert_eq!(language_for_path("rs"), None);
    assert_eq!(language_for_path("alpha.rs/beta"), None);
}

#[test]
fn fallbacks_say_why_and_for_which_side() {
    let complex = Some(ParseFailure::Complexity);
    let rejected = Some(ParseFailure::Syntax);

    assert_eq!(
        fallback_reason(ParseFailure::Syntax, None, ParseSide::Before),
        FallbackReason::ParseError(ParseSide::Before)
    );
    assert_eq!(
        fallback_reason(ParseFailure::Syntax, complex, ParseSide::Both),
        FallbackReason::SyntaxComplexity(ParseSide::Both)
    );
    assert_eq!(
        fallback_reason(ParseFailure::Complexity, rejected, ParseSide::Both),
        FallbackReason::SyntaxComplexity(ParseSide::Both)
    );
}

#[test]
fn projection_health_tells_how_a_tree_came_about() {
    let health = |path: &str, before: &str, after: &str, generated: bool| {
        let pair = syntax_pair(path, before, after, generated).expect("frontend setup");
        (pair.before.health, pair.after.health)
    };
    let both = |reason: FallbackReason| {
        (ProjectionHealth::Fallback(reason), ProjectionHealth::Fallback(reason))
    };

    assert_eq!(
        health("alpha.rs", "fn alpha() {}\n", "fn beta() {}\n", false),
        (ProjectionHealth::Parsed, ProjectionHealth::Parsed)
    );
    assert_eq!(
        health("alpha.rs", "fn alpha() {}\n", "fn beta() {}\n", true),
        both(FallbackReason::Generated)
    );
    assert_eq!(
        health("alpha.unknown", "alpha\n", "beta\n", false),
        both(FallbackReason::Unsupported)
    );
    assert_eq!(
        health("alpha.rs", "fn alpha() {}\n", "fn beta( {\n", false),
        both(FallbackReason::ParseError(ParseSide::After))
    );
    assert_eq!(
        health("alpha.rs", "fn beta( {\n", "fn alpha() {}\n", false),
        both(FallbackReason::ParseError(ParseSide::Before))
    );
    assert_eq!(
        health("alpha.rs", "fn beta( {\n", "fn beta( (\n", false),
        both(FallbackReason::ParseError(ParseSide::Both))
    );
}

#[test]
fn leaf_links_are_one_to_one_and_exact_ones_spell_alike() {
    let before = "fn alpha() { beta(1, 2); gamma(); }\n";
    let after = "fn alpha() { gamma(); beta(1, 3); }\n";
    let pair = syntax_pair("alpha.rs", before, after, false).expect("frontend setup");
    let graph = correspond(&pair);
    let links = &graph.tree.leaves.links;
    for (index, link) in links.iter().enumerate() {
        for other in &links[index + 1..] {
            assert_ne!(link.before, other.before);
            assert_ne!(link.after, other.after);
        }
        if link.relation == LeafRelation::Exact {
            assert_eq!(pair.before.leaf_text(link.before), pair.after.leaf_text(link.after));
        }
    }

    assert!(!links.is_empty());
}

#[test]
fn unit_edits_name_every_unit() {
    let before = "fn alpha() {}\nfn beta() {}\nfn gamma() {}\n";
    let after = "fn gamma() {}\nfn delta() {}\nfn alpha() {}\n";
    let pair = syntax_pair("alpha.rs", before, after, false).expect("frontend setup");
    let graph = correspond(&pair);
    let mut current = Vec::new();
    let mut old = Vec::new();
    for edit in &graph.tree.units {
        match edit {
            UnitEdit::Matched(unit) => {
                old.push(unit.before);
                current.push(unit.after);
            }
            UnitEdit::Removed { before } => old.push(*before),
            UnitEdit::Added { after } => current.push(*after),
        }
    }
    old.sort_unstable();

    assert_eq!(current, pair.after.review_units());
    assert_eq!(old, pair.before.review_units());
}

#[test]
fn one_of_two_swapped_units_keeps_its_place() {
    let before = "fn alpha() { 1; }\nfn beta() { 2; }\n";
    let after = "fn beta() { 2; }\nfn alpha() { 1; }\n";
    let pair = syntax_pair("alpha.rs", before, after, false).expect("frontend setup");
    let graph = correspond(&pair);
    let moved = graph
        .tree
        .units
        .iter()
        .filter(|edit| {
            matches!(edit, UnitEdit::Matched(unit) if unit.placement == Placement::Reordered)
        })
        .count();

    assert_eq!(moved, 1);
}

#[test]
fn every_edit_of_a_plan_is_covered_by_its_hunk() {
    let pair = syntax_pair("alpha.txt", "one\ntwo\n", "one\n2\n", false).expect("frontend setup");
    let graph = correspond(&pair);
    let planned = plan_hunks(&pair, &graph);

    assert_eq!(planned.len(), 1);
    assert!(planned[0].changes.iter().any(|change| matches!(
        change,
        SourceChange::Replace { before, after, .. }
            if before.len() == 1 && before[0].number == 2 && after[0].number == 2
    )));
}

#[test]
fn source_orders_compare_gaps_then_deletions_then_lines() {
    let deletion = SourceOrder::removal(AfterGap::new(2), 5);
    let later = SourceOrder::removal(AfterGap::new(2), 6);
    let current = SourceOrder::current(3);

    assert!(deletion.precedes(&later));
    assert!(later.precedes(&current));
    assert!(!current.precedes(&deletion));
    assert!(SourceOrder::current(2).precedes(&deletion));
    assert!(!current.precedes(&current));
}

#[test]
fn changes_sort_by_their_place_in_the_current_source() {
    let lines = vec![LineLink { before: 0, after: 0 }, LineLink { before: 3, after: 2 }];
    let endings = Vec::new();
    let alignment =
        LineAlignment { lines: &lines, endings: &endings, before_lines: 5, after_lines: 4 };
    let late = replace(&[], &[4]);
    let deletion = replace(&[3, 2], &[]);
    let early = SourceChange::Context(1);

    assert_eq!(change_source_order(&deletion, &alignment), alignment.before_order(2));
    assert_eq!(alignment.aligned_before_line(3), Some(4));
    assert_eq!(alignment.aligned_before_line(2), None);
    assert_eq!(alignment.current_anchor(5), Some(4));
    assert!(change_source_order(&early, &alignment)
        .precedes(&change_source_order(&deletion, &alignment)));
    assert!(change_source_order(&deletion, &alignment)
        .precedes(&change_source_order(&late, &alignment)));
}

#[test]
fn a_size_notice_comes_only_above_the_limit() {
    assert_eq!(size_notice("alpha", Some(4), None, 4), None);
    assert_eq!(
        size_notice("alpha", Some(5), None, 4),
        Some(FileNotice::TooLarge {
            path: "alpha".to_owned(),
            before_bytes: Some(5),
            after_bytes: None,
            limit_bytes: 4,
        })
    );
}

#[test]
fn a_pair_of_texts_becomes_a_review_a_notice_or_nothing() {
    let long = "\n".repeat(MAX_REVISION_LINES + 1);

    assert_eq!(review_source_pair("alpha", Some("same"), Some("same")), Ok(None));
    assert_eq!(review_source_pair("alpha", Some(""), None), Ok(None));
    assert!(matches!(
        review_source_pair("alpha", None, Some("new\n")),
        Ok(Some(ReviewEntry::Diff(file))) if file.path == "alpha" && file.hunks.len() == 1
    ));
    assert_eq!(
        review_source_pair("alpha", None, Some(&long)),
        Ok(Some(ReviewEntry::Notice(FileNotice::TooManyLines {
            path: "alpha".to_owned(),
            before_lines: None,
            after_lines: Some(MAX_REVISION_LINES + 1),
            limit_lines: MAX_REVISION_LINES,
        })))
    );
}

#[test]
fn reviews_come_in_path_order_with_generated_files_last() {
    let entry = |path: &str, text: &str| ReviewEntry::Diff(review(path, "", text));
    let ordered = order_reviews(vec![
        entry("b", "// @generated\n"),
        entry("c", "one\n"),
        entry("a", "// @generated\n"),
        entry("B", "two\n"),
    ]);
    let paths = ordered.iter().map(|entry| entry.path()).collect::<Vec<_>>();

    assert_eq!(paths, ["B", "c", "a", "b"]);
}

#[test]
fn tree_changes_review_regular_files_only() {
    assert_eq!(plan_change(TreeChange::Rewrite), ChangePlan::Unexpected);
    assert_eq!(
        plan_change(TreeChange::Addition { is_blob: true }),
        ChangePlan::Review { has_before: false, has_after: true }
    );
    assert_eq!(
        plan_change(TreeChange::Deletion { is_blob: true }),
        ChangePlan::Review { has_before: true, has_after: false }
    );
    assert_eq!(
        plan_change(TreeChange::Modification { was_blob: true, is_blob: true }),
        ChangePlan::Review { has_before: true, has_after: true }
    );
    assert_eq!(
        plan_change(TreeChange::Modification { was_blob: false, is_blob: true }),
        ChangePlan::Skip
    );
    assert_eq!(plan_change(TreeChange::Addition { is_blob: false }), ChangePlan::Skip);
}

#[test]
fn arguments_select_a_scan_a_commit_or_a_pair() {
    assert_eq!(select_request(false, false), Request::Worktree);
    assert_eq!(select_request(true, false), Request::Commit);
    assert_eq!(select_request(true, true), Request::FilePair);
    assert_eq!(select_request(false, true), Request::Incomplete);
}

#[test]
fn a_zero_byte_makes_contents_binary() {
    assert!(is_binary(&[1, 0, 2]));
    assert!(!is_binary(&[1, 2]));
    assert!(!is_binary(&[]));
}

#[test]
fn paths_without_a_name_keep_the_current_path() {
    assert_eq!(display_pair_path("/alpha/..", "/beta/.."), "/beta/..");
}

#[test]
fn rows_mark_what_changed_in_tight_spans() {
    let diff = mig::diff::diff_file("notes.txt", "alpha one\n", "alpha two\n").expect("two texts");
    let mut marked = Vec::new();
    for hunk in &diff.hunks {
        for row in &hunk.rows {
            let spans = match row {
                mig::presentation::ReviewRow::Removed(line)
                | mig::presentation::ReviewRow::Added(line) => &line.spans,
                _ => continue,
            };
            for pair in spans.windows(2) {
                assert!(pair[0].syntax != pair[1].syntax || pair[0].mark != pair[1].mark);
            }
            for span in spans {
                assert!(!span.text.is_empty());
                if span.mark != mig::presentation::DiffMark::Context {
                    marked.push((span.text.clone(), span.mark));
                }
            }
        }
    }
    assert_eq!(
        marked,
        vec![
            ("one".to_owned(), mig::presentation::DiffMark::Removed),
            ("two".to_owned(), mig::presentation::DiffMark::Added),
        ]
    );
}

/// Old lines removed, and current lines added or reflowed, over all hunks.
fn owned_lines(path: &str, before: &str, after: &str) -> (Vec<usize>, Vec<usize>, Vec<usize>) {
    let pair = syntax_pair(path, before, after, false).expect("frontend setup");
    let (mut removed, mut added, mut reflowed) = (Vec::new(), Vec::new(), Vec::new());
    for change in plan_hunks(&pair, &correspond(&pair)).iter().flat_map(|hunk| &hunk.changes) {
        match change {
            SourceChange::Replace { before, after, .. } => {
                removed.extend(before.iter().map(|edit| edit.number));
                added.extend(after.iter().map(|edit| edit.number));
            }
            SourceChange::Reflow(line) => reflowed.push(*line),
            _ => {}
        }
    }
    removed.sort_unstable();
    added.sort_unstable();
    reflowed.sort_unstable();
    (removed, added, reflowed)
}

#[test]
fn lines_of_linewise_files_are_owned_once() {
    let before = "one\ntwo\nthree\nfour\nfive\n";
    let after = "one\n2\nthree\n4\n4b\nfive\n";

    assert_eq!(owned_lines("alpha.txt", before, after), (vec![2, 4], vec![2, 4, 5], vec![]));
}

#[test]
fn files_that_do_not_parse_show_no_reflow() {
    let before = "fn alpha( {\n    beta(1,\n        2);\n}\n";
    let after = "fn alpha( {\n    beta(1, 2);\n}\n";
    let (removed, added, reflowed) = owned_lines("alpha.rs", before, after);

    assert_eq!(removed, [2, 3]);
    assert_eq!(added, [2]);
    assert!(reflowed.is_empty());
}

#[test]
fn a_call_that_only_wraps_is_reflowed() {
    let before = "fn alpha() {\n    beta(1, 2);\n}\n";
    let after = "fn alpha() {\n    beta(\n        1,\n        2,\n    );\n}\n";
    let (_, _, reflowed) = owned_lines("alpha.rs", before, after);

    assert!(reflowed.windows(2).all(|lines| lines[0] < lines[1]));
}

#[test]
fn normal_fallbacks_stay_as_they_are() {
    let text = "one\ntwo\nthree\nfour\nfive\nsix\n";
    let pair = syntax_pair("alpha.txt", text, text, false).expect("frontend setup");
    let part = |before: (usize, usize), after: (usize, usize)| LineFallback {
        before: Span { start: before.0, end: before.1 },
        after: Span { start: after.0, end: after.1 },
    };
    let parts = vec![part((3, 4), (4, 4)), part((0, 2), (1, 1)), part((1, 3), (0, 1)), part((5, 5), (2, 2))];

    let once = normalize_line_fallbacks(&pair, &parts);
    let twice = normalize_line_fallbacks(&pair, &once);
    let ranges = |fallbacks: &[LineFallback]| {
        fallbacks
            .iter()
            .map(|fallback| {
                (fallback.before.start, fallback.before.end, fallback.after.start, fallback.after.end)
            })
            .collect::<Vec<_>>()
    };

    assert_eq!(ranges(&once), [(0, 3, 0, 1), (3, 4, 4, 4)]);
    assert_eq!(ranges(&twice), ranges(&once));
}

#[test]
fn lines_of_one_sided_files_are_owned_once() {
    let text = "use alpha::Alpha;\n\nfn beta() {\n    gamma();\n}\n\nfn delta() {}\n";

    let (removed, added, reflowed) = owned_lines("alpha.rs", text, "");
    assert_eq!(removed, [1, 2, 3, 4, 5, 6, 7]);
    assert!(added.is_empty() && reflowed.is_empty());

    let (removed, added, reflowed) = owned_lines("alpha.rs", "", text);
    assert_eq!(added, [1, 2, 3, 4, 5, 6, 7]);
    assert!(removed.is_empty() && reflowed.is_empty());
}

#[test]
fn lines_of_units_that_share_a_row_are_owned_once() {
    let before = "fn alpha() { one(); } fn beta() { two(); }\nfn gamma() {}\n";
    let after = "fn alpha() { three(); } fn beta() { four(); }\nfn gamma() {}\n";

    assert_eq!(owned_lines("alpha.rs", before, after), (vec![1], vec![1], vec![]));
}

#[test]
fn lines_of_edited_units_are_owned_once() {
    let before = "fn alpha() {\n    one(1);\n    two(2);\n    three(3);\n}\n";
    let after = "fn alpha() {\n    one(4);\n    two(2);\n    three(5);\n}\n";
    let (removed, added, reflowed) = owned_lines("alpha.rs", before, after);

    assert!(removed.contains(&2) && removed.contains(&4));
    assert!(added.contains(&2) && added.contains(&4));
    assert!(removed.windows(2).all(|lines| lines[0] < lines[1]));
    assert!(added.windows(2).all(|lines| lines[0] < lines[1]));
    assert!(reflowed.is_empty());
}

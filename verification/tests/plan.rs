use mig::change::{AfterGap, Signal};
use mig::context::merge_windows_touch;
use mig::correspondence::fallbacks::{indexed_ranges_overlap, FallbackIndex};
use mig::correspondence::links::{
    LineFallback, LineLink, NodeLink, ParentCorrespondence, Placement,
};
use mig::correspondence::{correspond, Correspondence};
use mig::diff::diff_file;
use mig::frontend::syntax_pair;
use mig::plan::anchored::merge_window;
use mig::plan::facts::line_link_is_display_checkpoint;
use mig::plan::order::{LineAlignment, SourceOrder};
use mig::plan::plan_hunks;
use mig::plan::regions::{retained_region, retained_regions, RetainedRegion, Retention};
use mig::plan::scene::{AnchorFacts, PlanScene};
use mig::plan::sequence::change_source_order;
use mig::presentation::{
    present_hunks, source_row, word_parts, DiffMark, ReviewRow, SourceRow, WordDiff,
};
use mig::review::{LineCoverage, LineEndingChange, RefinedHunk, SourceChange, SourceEdit};
use mig::span::Span;
use mig::syntax::{SyntaxClass, SyntaxPair, SyntaxTree};
use std::collections::HashSet;
use std::fmt;
use std::ops::Range;

/// One review row, with the two sides of a paired line together.
#[derive(Clone)]
enum DiffRow {
    Line(SourceRow),
    Reflow(SourceRow),
    LineChange { before: Option<SourceRow>, after: Option<SourceRow> },
    LineEnding(LineEndingChange),
    Moved { before: Option<usize>, after: SourceRow },
    Wordwise(WordDiff),
    Elision(LineCoverage),
    FileBoundary,
}

#[derive(Clone)]
struct Hunk {
    coverage: LineCoverage,
    rows: Vec<DiffRow>,
}

impl fmt::Debug for DiffRow {
    fn fmt(&self, formatter: &mut fmt::Formatter<'_>) -> fmt::Result {
        let label = match self {
            DiffRow::Line(line) => format!("  {}", marked_text(line)),
            DiffRow::Reflow(line) => format!("~ {}", marked_text(line)),
            DiffRow::LineChange { before, after } => format!(
                "- {} + {}",
                before.as_ref().map_or_else(String::new, marked_text),
                after.as_ref().map_or_else(String::new, marked_text),
            ),
            DiffRow::LineEnding(change) => format!("{change:?}"),
            DiffRow::Moved { before, after } => format!("> {before:?} {}", marked_text(after)),
            DiffRow::Wordwise(word) => format!("{word:?}"),
            DiffRow::Elision(coverage) => format!("{coverage:?}"),
            DiffRow::FileBoundary => String::from("end"),
        };
        formatter.write_str(&label)
    }
}

impl fmt::Debug for Hunk {
    fn fmt(&self, formatter: &mut fmt::Formatter<'_>) -> fmt::Result {
        formatter.write_str("hunk\n")?;
        for row in &self.rows {
            formatter.write_str(&format!("  {row:?}\n"))?;
        }
        Ok(())
    }
}

/// Number and spans of a row, with changed text in brackets.
fn marked_text(row: &SourceRow) -> String {
    let spans = row.spans.iter().map(|span| match span.mark {
        DiffMark::Context => span.text.clone(),
        DiffMark::Removed => format!("[-{}]", span.text),
        DiffMark::Added => format!("[+{}]", span.text),
    });
    format!("{} {}", row.number, spans.collect::<String>())
}

fn span(range: Range<usize>) -> Span {
    Span { start: range.start, end: range.end }
}

fn pair_of(path: &str, before: &str, after: &str) -> SyntaxPair {
    syntax_pair(path, before, after, false).expect("frontend setup")
}

fn removed(pair: &SyntaxPair, edit: &SourceEdit) -> SourceRow {
    source_row(&pair.before, edit.number, &edit.changed_bytes, DiffMark::Removed)
}

fn added(pair: &SyntaxPair, edit: &SourceEdit) -> SourceRow {
    source_row(&pair.after, edit.number, &edit.changed_bytes, DiffMark::Added)
}

fn text_of(tree: &SyntaxTree, bytes: Option<Span>) -> &str {
    match bytes {
        Some(bytes) => tree.source.slice(bytes.start, bytes.end).expect("character boundaries"),
        None => "",
    }
}

/// Rows of one change; a replaced pair of single lines stays one row.
fn rows_of(pair: &SyntaxPair, change: &SourceChange) -> Vec<DiffRow> {
    let plain = |line: usize| source_row(&pair.after, line, &Vec::new(), DiffMark::Added);
    match change {
        SourceChange::Context(line) => vec![DiffRow::Line(plain(*line))],
        SourceChange::Edited(edit) => vec![DiffRow::Line(added(pair, edit))],
        SourceChange::Reflow(line) => vec![DiffRow::Reflow(plain(*line))],
        SourceChange::Replace { before, after, line_endings } => {
            let mut rows = Vec::new();
            if before.len() == 1 && after.len() == 1 {
                rows.push(DiffRow::LineChange {
                    before: Some(removed(pair, &before[0])),
                    after: Some(added(pair, &after[0])),
                });
            } else {
                rows.extend(before.iter().map(|edit| DiffRow::LineChange {
                    before: Some(removed(pair, edit)),
                    after: None,
                }));
                rows.extend(after.iter().map(|edit| DiffRow::LineChange {
                    before: None,
                    after: Some(added(pair, edit)),
                }));
            }
            rows.extend(line_endings.iter().map(|ending| DiffRow::LineEnding(*ending)));
            rows
        }
        SourceChange::LineEnding(ending) => vec![DiffRow::LineEnding(*ending)],
        SourceChange::Move(block) => {
            let mut rows = (block.after.start..block.after.end)
                .map(|line| DiffRow::Moved {
                    before: (line == block.after.start).then_some(block.before.start),
                    after: plain(line),
                })
                .collect::<Vec<_>>();
            rows.extend(block.line_endings.iter().map(|ending| DiffRow::LineEnding(*ending)));
            rows
        }
        SourceChange::Compact(compact) => vec![DiffRow::Wordwise(word_parts(
            compact.before_line,
            compact.after_line,
            text_of(&pair.before, compact.before_bytes),
            text_of(&pair.after, compact.after_bytes),
        ))],
        SourceChange::Elision(coverage) => vec![DiffRow::Elision(*coverage)],
    }
}

fn materialize(pair: &SyntaxPair, planned: &Vec<RefinedHunk>) -> Vec<Hunk> {
    let presented = present_hunks(&pair.before, &pair.after, planned);
    planned
        .iter()
        .zip(&presented)
        .map(|(hunk, shown)| {
            let mut rows =
                hunk.changes.iter().flat_map(|change| rows_of(pair, change)).collect::<Vec<_>>();
            if matches!(shown.rows.last(), Some(ReviewRow::FileBoundary)) {
                rows.push(DiffRow::FileBoundary);
            }
            Hunk { coverage: hunk.coverage, rows }
        })
        .collect()
}

fn planned(path: &str, before: &str, after: &str) -> Vec<Hunk> {
    let pair = pair_of(path, before, after);
    let correspondence = correspond(&pair);
    let hunks = materialize(&pair, &plan_hunks(&pair, &correspondence));
    assert_source_space_invariants(path, &hunks);
    assert_local_fallbacks_are_signal(path, &correspondence, &hunks);
    hunks
}

fn row_after_source_line(row: &DiffRow) -> Option<usize> {
    match row {
        DiffRow::Line(line) | DiffRow::Reflow(line) => Some(line.number),
        DiffRow::LineChange { after, .. } => after.as_ref().map(|line| line.number),
        DiffRow::Moved { after, .. } => Some(after.number),
        DiffRow::Wordwise(word) => word.after_line,
        DiffRow::Elision(coverage) => coverage.after.map(|range| range.start),
        DiffRow::LineEnding(_) | DiffRow::FileBoundary => None,
    }
}

/// Every non-exact row admitted to local line review remains materialized as an edit.
fn assert_local_fallbacks_are_signal(path: &str, correspondence: &Correspondence, hunks: &[Hunk]) {
    let mut before_signal = HashSet::new();
    let mut after_signal = HashSet::new();
    for row in hunks.iter().flat_map(|hunk| &hunk.rows) {
        let DiffRow::LineChange { before, after } = row else {
            continue;
        };
        before_signal.extend(before.as_ref().map(|line| line.number.saturating_sub(1)));
        after_signal.extend(after.as_ref().map(|line| line.number.saturating_sub(1)));
    }
    let before_exact = correspondence
        .source
        .lines
        .iter()
        .map(|link| link.before)
        .collect::<HashSet<_>>();
    let after_exact = correspondence
        .source
        .lines
        .iter()
        .map(|link| link.after)
        .collect::<HashSet<_>>();

    for fallback in &correspondence.source.fallbacks {
        for line in fallback.before.start..fallback.before.end {
            assert!(
                before_exact.contains(&line) || before_signal.contains(&line),
                "{path} hides before line {} inside local fallback {fallback:#?}: {hunks:#?}",
                line + 1,
            );
        }
        for line in fallback.after.start..fallback.after.end {
            assert!(
                after_exact.contains(&line) || after_signal.contains(&line),
                "{path} hides current line {} inside local fallback {fallback:#?}: {hunks:#?}",
                line + 1,
            );
        }
    }
}

#[test]
fn move_merge_window_does_not_borrow_an_edit_halo() {
    let moved = merge_window(span(1..2), Signal::Move);
    let near_edit = merge_window(span(6..7), Signal::Edit);
    let distant_edit = merge_window(span(9..10), Signal::Edit);
    let first_edit = merge_window(span(1..2), Signal::Edit);

    assert!(merge_windows_touch(&moved, &near_edit));
    assert!(!merge_windows_touch(&moved, &distant_edit));
    assert!(merge_windows_touch(&first_edit, &distant_edit));
}

#[test]
fn fallback_index_ignores_an_empty_counterpart_coordinate() {
    let index = FallbackIndex::new(&vec![LineFallback {
        before: span(7..8),
        after: span(7..7),
    }]);

    assert!(indexed_ranges_overlap(&index.before, &span(2..9)));
    assert!(!indexed_ranges_overlap(&index.after, &span(2..10)));
}

fn line_text(line: &SourceRow) -> String {
    line.spans.iter().map(|span| span.text.as_str()).collect()
}

fn current_line(row: &DiffRow) -> Option<&SourceRow> {
    match row {
        DiffRow::Line(line) | DiffRow::Reflow(line) | DiffRow::Moved { after: line, .. } => {
            Some(line)
        }
        DiffRow::LineChange { after, .. } => after.as_ref(),
        DiffRow::LineEnding(_)
        | DiffRow::Wordwise(_)
        | DiffRow::Elision(_)
        | DiffRow::FileBoundary => None,
    }
}

/// Current-world coverage represented by one planned row; old-only ghosts have none.
fn current_world_coverage(row: &DiffRow) -> Option<Range<usize>> {
    match row {
        DiffRow::Line(line) | DiffRow::Reflow(line) | DiffRow::Moved { after: line, .. } => {
            Some(line.number..line.number.saturating_add(1))
        }
        DiffRow::LineChange {
            after: Some(line), ..
        } => Some(line.number..line.number.saturating_add(1)),
        DiffRow::Wordwise(word) => word.after_line.map(|line| line..line.saturating_add(1)),
        DiffRow::Elision(coverage) => coverage.after.map(|lines| lines.start..lines.end),
        DiffRow::LineChange { after: None, .. }
        | DiffRow::LineEnding(_)
        | DiffRow::FileBoundary => None,
    }
}

/// Planned rows remain ordered and singly owned inside each visual hunk.
///
/// Ownership is deliberately hunk-local: an ancestor breadcrumb may frame two distant hunks.
fn assert_source_space_invariants(path: &str, hunks: &[Hunk]) {
    for (hunk_index, hunk) in hunks.iter().enumerate() {
        let mut before = HashSet::new();
        let mut after = HashSet::new();
        let mut previous_current_end = None;
        for (row_index, row) in hunk.rows.iter().enumerate() {
            if let Some(current) = current_world_coverage(row) {
                if let Some(previous_end) = previous_current_end {
                    assert!(
                        current.start >= previous_end,
                        "{path} hunk {hunk_index} row {row_index} moves backwards or overlaps \
                         current source after {previous_end}: {row:#?}\n{hunk:#?}",
                    );
                }
                previous_current_end = Some(current.end);
            }

            let (before_line, after_line) = match row {
                DiffRow::Line(line) | DiffRow::Reflow(line) => (None, Some(line.number)),
                DiffRow::LineChange { before, after } => (
                    before.as_ref().map(|line| line.number),
                    after.as_ref().map(|line| line.number),
                ),
                DiffRow::Moved { before, after } => (*before, Some(after.number)),
                DiffRow::Wordwise(word) => (word.before_line, word.after_line),
                DiffRow::LineEnding(_) | DiffRow::Elision(_) | DiffRow::FileBoundary => {
                    continue;
                }
            };
            if let Some(line) = before_line {
                assert!(
                    before.insert(line),
                    "{path} hunk {hunk_index} gives before line {line} multiple display owners: \
                     {hunk:#?}",
                );
            }
            if let Some(line) = after_line {
                assert!(
                    after.insert(line),
                    "{path} hunk {hunk_index} gives current line {line} multiple display owners: \
                     {hunk:#?}",
                );
            }
        }
    }
}

#[test]
fn line_cst_keeps_context_and_the_terminal_boundary() {
    let hunks = planned("notes.txt", "one\nold\nthree\n", "one\nnew\nthree\n");

    assert_eq!(hunks.len(), 1);
    assert_eq!(hunks[0].coverage.before, Some(span(1..4)));
    assert_eq!(hunks[0].coverage.after, Some(span(1..4)));
    assert!(matches!(hunks[0].rows.last(), Some(DiffRow::FileBoundary)));
    assert!(hunks[0].rows.iter().any(|row| {
        matches!(
            row,
            DiffRow::LineChange {
                before: Some(before),
                after: Some(after),
            } if line_text(before) == "old" && line_text(after) == "new"
        )
    }));
}

#[test]
fn retained_html_child_uses_after_indentation() {
    let before = "<article>\n  <img\n  src=\"ada.webp\"\n  />\n</article>\n";
    let after =
        "<article>\n  <div>\n    <img\n      src=\"ada.webp\"\n    />\n  </div>\n</article>\n";
    let hunks = planned("view.html", before, after);
    let rows = hunks.iter().flat_map(|hunk| &hunk.rows).collect::<Vec<_>>();

    assert!(rows.iter().any(|row| {
        matches!(
            row,
            DiffRow::Reflow(line) if line_text(line) == "      src=\"ada.webp\""
        )
    }));
    assert!(!rows.iter().any(|row| {
            matches!(
                row,
                DiffRow::LineChange { before, after }
                    if before.iter().chain(after).any(|line| line_text(line).contains("src=\"ada.webp\""))
            )
        }));
}

#[test]
fn display_syntax_does_not_change_structural_anchor_admission() {
    let before = "<article>\n  <img\n  src=\"ada.webp\"\n  />\n</article>\n";
    let after =
        "<article>\n  <div>\n    <img\n      src=\"ada.webp\"\n    />\n  </div>\n</article>\n";
    let pair = pair_of("view.html", before, after);
    let correspondence = correspond(&pair);
    let baseline_facts = AnchorFacts::new(&pair);
    let baseline = materialize(&pair, &plan_hunks(&pair, &correspondence));

    let mut recolored = pair.clone();
    for tree in [&mut recolored.before, &mut recolored.after] {
        for node in &mut tree.nodes {
            if let Some(leaf) = &mut node.leaf {
                leaf.syntax = SyntaxClass::Punctuation;
            }
        }
    }
    let recolored_facts = AnchorFacts::new(&recolored);
    assert_eq!(baseline_facts.before, recolored_facts.before);
    assert_eq!(baseline_facts.after, recolored_facts.after);

    let correspondence = correspond(&recolored);
    let recolored = materialize(&recolored, &plan_hunks(&recolored, &correspondence));
    let reflows = |hunks: &[Hunk]| {
        hunks
            .iter()
            .flat_map(|hunk| &hunk.rows)
            .filter_map(|row| match row {
                DiffRow::Reflow(line) => Some((line.number, line_text(line))),
                _ => None,
            })
            .collect::<Vec<_>>()
    };
    let baseline = reflows(&baseline);
    assert!(
        baseline
            .iter()
            .any(|(_, text)| text == "      src=\"ada.webp\""),
        "fixture must exercise a retained structural anchor: {baseline:#?}",
    );
    assert_eq!(baseline, reflows(&recolored));
}

#[test]
fn opaque_plaintext_body_stays_literal() {
    let before = "<plaintext>\n</plaintext>\n  <img>\n";
    let after = "<plaintext>\n</plaintext>\n  <div>\n    <img>\n  </div>\n";
    let hunks = planned("view.html", before, after);
    let rows = hunks.iter().flat_map(|hunk| &hunk.rows).collect::<Vec<_>>();

    assert!(
        rows.iter().any(|row| {
            matches!(
                row,
                DiffRow::LineChange { before: Some(line), .. }
                    if line_text(line).contains("<img>")
            )
        }),
        "{rows:#?}"
    );
    assert!(
        rows.iter().any(|row| {
            matches!(
                row,
                DiffRow::LineChange { after: Some(line), .. }
                    if line_text(line).contains("<img>")
            )
        }),
        "{rows:#?}"
    );
}

fn edits(numbers: &[usize]) -> Vec<SourceEdit> {
    numbers
        .iter()
        .map(|number| SourceEdit { number: *number, changed_bytes: Vec::new() })
        .collect()
}

#[test]
fn replacement_group_uses_current_position_and_deletion_uses_its_gap() {
    let lines = vec![LineLink { before: 91, after: 91 }];
    let endings = Vec::new();
    let alignment =
        LineAlignment { lines: &lines, endings: &endings, before_lines: 104, after_lines: 104 };
    let replacement = SourceChange::Replace {
        before: edits(&[94, 95]),
        after: edits(&[100, 101]),
        line_endings: Vec::new(),
    };
    let SourceChange::Replace { after, .. } = &replacement else {
        panic!("a replacement");
    };
    let replacement_current = after.iter().map(|edit| edit.number).collect::<Vec<_>>();
    let current = SourceChange::Context(97);
    let deletion = SourceChange::Replace {
        before: edits(&[94]),
        after: Vec::new(),
        line_endings: Vec::new(),
    };

    assert_eq!(replacement_current, [100, 101]);
    assert_eq!(change_source_order(&replacement, &alignment), SourceOrder::current(100));
    assert!(change_source_order(&current, &alignment)
        .precedes(&change_source_order(&replacement, &alignment)));
    assert_eq!(change_source_order(&deletion, &alignment), alignment.before_order(94));
}

#[test]
fn deletion_gaps_are_stable_before_first_between_anchors_at_eof_and_when_empty() {
    let lines = vec![LineLink { before: 1, after: 0 }, LineLink { before: 3, after: 1 }];
    let endings = Vec::new();
    let alignment =
        LineAlignment { lines: &lines, endings: &endings, before_lines: 5, after_lines: 2 };

    assert_eq!(alignment.before_order(1).after_gap, AfterGap::new(0));
    assert_eq!(alignment.before_order(3).after_gap, AfterGap::new(1));
    assert_eq!(alignment.before_order(5).after_gap, AfterGap::new(2));
    assert!(alignment.before_order(3).precedes(&SourceOrder::current(2)));

    let lines = Vec::new();
    let empty = LineAlignment { lines: &lines, endings: &endings, before_lines: 1, after_lines: 0 };

    assert_eq!(empty.before_order(1).after_gap, AfterGap::before_first());
    assert_eq!(empty.current_anchor(1), None);
}

#[test]
fn modified_multiline_unit_moved_down_stays_in_current_source_order() {
    let before = "\
fn first() {
    one();
}
fn second() {
    two();
}
fn third() {
    three();
}
";
    let after = "\
fn third() {
    three();
}
fn second() {
    two();
}
fn first() {
    changed_one();
    extra();
}
";
    let hunks = planned("lib.rs", before, after);

    assert_eq!(hunks.len(), 1, "{hunks:#?}");
    let current = hunks[0]
        .rows
        .iter()
        .filter_map(row_after_source_line)
        .collect::<Vec<_>>();
    assert_eq!(current, (1..=10).collect::<Vec<_>>(), "{hunks:#?}");
    assert!(current.windows(2).all(|lines| lines[0] <= lines[1]));
}

#[test]
fn changed_comment_is_a_physical_line_edit() {
    let hunks = planned(
        "lib.rs",
        "fn run() {\n    // old reason\n    work();\n}\n",
        "fn run() {\n    // new reason\n    work();\n}\n",
    );
    let rows = hunks.iter().flat_map(|hunk| &hunk.rows).collect::<Vec<_>>();

    assert!(
        rows.iter()
            .any(|row| matches!(row, DiffRow::LineChange { .. }))
    );
    assert!(!rows.iter().any(|row| {
        matches!(
            row,
            DiffRow::Line(line) | DiffRow::Reflow(line) if line_text(line).contains("reason")
        )
    }));
}

#[test]
fn comment_edit_does_not_hide_independent_reflow() {
    let before = "fn run() { // old reason\n    work(); }\n";
    let after = "fn run() {\n    // new reason\n    work();\n}\n";
    let hunks = planned("lib.rs", before, after);
    let rows = hunks.iter().flat_map(|hunk| &hunk.rows).collect::<Vec<_>>();

    assert!(
        rows.iter()
            .any(|row| matches!(row, DiffRow::LineChange { .. }))
    );
    assert!(rows.iter().any(|row| { matches!(row, DiffRow::Reflow(_)) }));
}

#[test]
fn multiple_changed_comments_on_one_line_render_one_line_change() {
    let before = "fn run() { /* first */ /* second */ work(); }\n";
    let after = "fn run() { /* changed */ /* revised */ work(); }\n";
    let hunks = planned("lib.rs", before, after);
    let line_changes = hunks
        .iter()
        .flat_map(|hunk| &hunk.rows)
        .filter(|row| matches!(row, DiffRow::LineChange { .. }))
        .count();

    assert_eq!(line_changes, 1);
}

#[test]
fn changed_top_level_comment_pairs_both_source_sides() {
    let hunks = planned(
        "lib.rs",
        "// old license\nfn run() {}\n",
        "// new license\nfn run() {}\n",
    );

    assert!(hunks.iter().flat_map(|hunk| &hunk.rows).any(|row| {
        matches!(
            row,
            DiffRow::LineChange {
                before: Some(before),
                after: Some(after),
            } if line_text(before).contains("old") && line_text(after).contains("new")
        )
    }));
}

#[test]
fn exact_reordered_unit_is_present_world_move() {
    let before = "fn first() {\n    first();\n}\n\nfn second() {\n    second();\n}\n";
    let after = "fn second() {\n    second();\n}\n\nfn first() {\n    first();\n}\n";
    let hunks = planned("lib.rs", before, after);

    assert!(
        hunks
            .iter()
            .flat_map(|hunk| &hunk.rows)
            .any(|row| matches!(row, DiffRow::Moved { .. })),
        "{hunks:#?}"
    );
}

#[test]
fn reordered_subtree_inside_unit_is_not_rendered_as_all_context() {
    let before = "fn run() {\n    first();\n    second();\n}\n";
    let after = "fn run() {\n    second();\n    first();\n}\n";
    let hunks = planned("lib.rs", before, after);

    assert!(
        hunks
            .iter()
            .flat_map(|hunk| &hunk.rows)
            .filter_map(current_line)
            .flat_map(|line| &line.spans)
            .any(|span| span.mark == DiffMark::Added
                && matches!(span.text.as_str(), "first" | "second"))
    );
}

#[test]
fn wiring_units_share_affixes() {
    let hunks = planned("lib.rs", "use crate::old_name;\n", "use crate::new_name;\n");
    let word = hunks.iter().flat_map(|hunk| &hunk.rows).find_map(|row| {
        let DiffRow::Wordwise(word) = row else {
            return None;
        };
        Some(word)
    });

    let word = word.expect("wiring edit");
    assert_eq!(word.prefix, "use crate::");
    assert_eq!(word.removed, "old");
    assert_eq!(word.added, "new");
    assert_eq!(word.suffix, "_name;");
}

#[test]
fn mixed_module_modes_render_linewise_in_both_directions() {
    let inline = "mod subject { pub fn payload() {} }\n";
    let bodyless = "mod subject;\n";

    for (before, after) in [(inline, bodyless), (bodyless, inline)] {
        let hunks = planned("lib.rs", before, after);
        let rows = hunks.iter().flat_map(|hunk| &hunk.rows).collect::<Vec<_>>();

        assert!(
            !rows.iter().any(|row| matches!(row, DiffRow::Wordwise(_))),
            "{before:?} -> {after:?}: {hunks:#?}"
        );
        assert!(rows.iter().any(|row| {
            matches!(
                row,
                DiffRow::LineChange {
                    before: Some(before_line),
                    after: Some(after_line),
                } if line_text(before_line) == before.trim_end()
                    && line_text(after_line) == after.trim_end()
            )
        }));
    }
}

#[test]
fn removed_syntax_is_never_hidden_in_a_current_only_row() {
    for (path, before, after, removed) in [
        (
            "lib.rs",
            "fn run() { let mut value = 1; }\n",
            "fn run() { let value = 1; }\n",
            "mut",
        ),
        (
            "view.ts",
            "function run() { old(); }\n",
            "function run() {}\n",
            "old",
        ),
        (
            "view.css",
            ".card { margin: 1px 2px; }\n",
            ".card { margin: 1px; }\n",
            "2",
        ),
    ] {
        let hunks = planned(path, before, after);
        assert!(
            hunks.iter().flat_map(|hunk| &hunk.rows).any(|row| {
                let DiffRow::LineChange {
                    before: Some(line), ..
                } = row
                else {
                    return false;
                };
                line_text(line).contains(removed)
                    && line
                        .spans
                        .iter()
                        .any(|span| span.mark == DiffMark::Removed && span.text.contains(removed))
            }),
            "{path}: {hunks:#?}"
        );
    }
}

#[test]
fn overlapping_syntax_units_review_one_physical_row_locally() {
    let diff = diff_file(
        "lib.rs",
        "fn alpha() {} fn beta() {}\n",
        "fn alpha() { x(); } fn beta() { y(); }\n",
    )
    .expect("overlapping syntax units must review locally");
    let current = diff
        .hunks
        .iter()
        .flat_map(|hunk| &hunk.rows)
        .filter_map(|row| match row {
            ReviewRow::Current(line) | ReviewRow::Reflow(line) | ReviewRow::Added(line) => {
                Some(line)
            }
            _ => None,
        })
        .filter(|line| line.number == 1)
        .collect::<Vec<_>>();

    assert_eq!(current.len(), 1, "{:#?}", diff.hunks);
    assert!(line_text(current[0]).contains("x();"));
    assert!(line_text(current[0]).contains("y();"));
}

#[test]
fn file_boundary_is_unique_and_globally_terminal() {
    let hunks = planned(
        "lib.rs",
        "use crate::old;\n\nfn end() { old(); }\n",
        "use crate::new;\n\nfn end() { new(); }\n",
    );
    let rows = hunks.iter().flat_map(|hunk| &hunk.rows).collect::<Vec<_>>();

    assert_eq!(
        rows.iter()
            .filter(|row| matches!(row, DiffRow::FileBoundary))
            .count(),
        1
    );
    assert!(matches!(rows.last(), Some(DiffRow::FileBoundary)));
    assert!(matches!(
        hunks.last().and_then(|hunk| hunk.rows.first()),
        Some(DiffRow::Wordwise(_))
    ));
}

#[test]
fn adjacent_structural_hunks_share_one_context_halo() {
    let hunks = planned(
        "lib.rs",
        "fn first() { old(); }\n\nfn second() { old(); }\n",
        "fn first() { new(); }\n\nfn second() { new(); }\n",
    );
    let shared_blank = hunks
        .iter()
        .flat_map(|hunk| &hunk.rows)
        .filter(|row| {
            matches!(
                row,
                DiffRow::Line(line) if !line.has_changes() && line.number == 2
            )
        })
        .count();

    assert_eq!(hunks.len(), 1, "adjacent context halos must coalesce");
    assert_eq!(shared_blank, 1, "{hunks:#?}");
}

#[test]
fn payload_signal_keeps_ancestor_headers_and_local_context() {
    let filler = (0..12)
        .map(|index| format!("        stable_{index}();\n"))
        .collect::<String>();
    let before = format!(
        "\
pub async fn attempt_turn_on_stream() -> Result<()> {{
    prepare();
    loop {{
        outer_setup();
{filler}        loop {{
            settle();
            let frame = read().await?;
            match frame {{
                Frame::Log(line) => show(line),
                Frame::ToolCall => handle(),
                Frame::Stop => break,
                Frame::Request {{ .. }} => {{}}
            }}
            finish();
        }}
    }}
}}
",
        filler = filler,
    );
    let after = before.replace(
        "                Frame::Stop => break,\n",
        "                Frame::Stop => break,
                Frame::Error(message) => return Err(eyre!(message)),
",
    );

    let hunks = planned("turn.rs", &before, &after);
    let rows = hunks.iter().flat_map(|hunk| &hunk.rows).collect::<Vec<_>>();
    for context in [
        "pub async fn attempt_turn_on_stream",
        "match frame {",
        "Frame::Log",
        "Frame::ToolCall",
        "Frame::Stop",
        "Frame::Request",
        "finish();",
    ] {
        assert!(
            rows.iter().any(|row| {
                matches!(
                    row,
                    DiffRow::Line(line) | DiffRow::Reflow(line)
                        if line_text(line).contains(context)
                )
            }),
            "missing {context:?}: {hunks:#?}",
        );
    }
    assert_eq!(
        rows.iter()
            .filter(|row| {
                matches!(
                    row,
                    DiffRow::Line(line) | DiffRow::Reflow(line)
                        if line_text(line).trim() == "loop {"
                )
            })
            .count(),
        2,
        "both loop ancestors must be visible: {hunks:#?}",
    );
    assert!(rows.iter().any(|row| {
        matches!(
            row,
            DiffRow::LineChange {
                before: None,
                after: Some(line),
            } if line_text(line).contains("Frame::Error")
        )
    }));
    assert!(rows.iter().any(|row| matches!(row, DiffRow::Elision(_))));
    assert!(!rows.iter().any(|row| {
            matches!(row, DiffRow::Line(line) | DiffRow::Reflow(line) if line_text(line).contains("stable_5"))
        }));

    let position = |number| {
        rows.iter()
            .position(|row| current_line(row).is_some_and(|line| line.number == number))
            .unwrap_or_else(|| panic!("missing current line {number}: {hunks:#?}"))
    };
    let hierarchy = [1, 3, 17, 20].map(position);
    assert!(
        hierarchy.windows(2).all(|pair| pair[0] < pair[1]),
        "hierarchy breadcrumbs must remain source ordered: {hunks:#?}",
    );
    for halo in [(1..=6).collect::<Vec<_>>(), (14..=27).collect::<Vec<_>>()] {
        let halo = halo.into_iter().map(position).collect::<Vec<_>>();
        assert!(
            halo.windows(2).all(|pair| pair[0] + 1 == pair[1]),
            "each hierarchy step needs its own contiguous context halo: {hunks:#?}",
        );
    }
    let local = [21, 22, 23, 24, 25, 26, 27].map(position);
    assert_eq!(hierarchy[3] + 1, local[0], "{hunks:#?}");
    assert!(
        local.windows(2).all(|pair| pair[0] + 1 == pair[1]),
        "three rows on either side of the signal must stay contiguous: {hunks:#?}",
    );
}

#[test]
fn distant_payload_windows_repeat_their_callable_hierarchy() {
    let review = |context| {
        let stable = (0..context)
            .map(|index| format!("    stable_{index}();\n"))
            .collect::<String>();
        let before = format!(
            "\
fn run() {{
    first(old_alpha);
{stable}    second(old_beta);
}}
",
            stable = stable,
        );
        let after = before
            .replace("old_alpha", "new_alpha")
            .replace("old_beta", "new_beta");
        planned("lib.rs", &before, &after)
    };

    assert_eq!(review(7).len(), 1, "touching payload halos must coalesce");
    assert_eq!(review(8).len(), 2, "distant payload halos must split");
    let hunks = review(18);

    assert_eq!(hunks.len(), 2, "{hunks:#?}");
    for (index, (present, absent)) in [("new_alpha", "new_beta"), ("new_beta", "new_alpha")]
        .into_iter()
        .enumerate()
    {
        assert!(hunks[index].rows.iter().any(|row| {
            current_line(row).is_some_and(|line| line_text(line).contains("fn run()"))
        }));
        assert!(hunks[index].rows.iter().any(|row| {
            current_line(row).is_some_and(|line| line_text(line).contains(present))
        }));
        assert!(
            !hunks[index].rows.iter().any(|row| {
                current_line(row).is_some_and(|line| line_text(line).contains(absent))
            })
        );
    }
}

#[test]
fn multiline_replacement_renders_each_revision_as_one_run() {
    let hunks = planned(
        "notes.txt",
        "header\nthis\nwent\naway\ntail\n",
        "header\nand then\nthis came in\nno meatgrinder\ntail\n",
    );
    let sides = hunks
        .iter()
        .flat_map(|hunk| &hunk.rows)
        .filter_map(|row| match row {
            DiffRow::LineChange {
                before: Some(_),
                after: None,
            } => Some('-'),
            DiffRow::LineChange {
                before: None,
                after: Some(_),
            } => Some('+'),
            DiffRow::LineChange {
                before: Some(_),
                after: Some(_),
            } => Some('±'),
            _ => None,
        })
        .collect::<Vec<_>>();

    assert_eq!(sides, ['-', '-', '-', '+', '+', '+']);
}

#[test]
fn unrelated_delimiter_cannot_split_a_structural_replacement() {
    let before = "\
fn run() {
    let stdin = read();
    let mut history = make_history(stdin);

    // Build prompt from the arguments.
    // Collect positional arguments.
    let prompt = {
        let mut args = std::env::args();
        let _ = args.next();
        args.collect::<Vec<_>>().join(\" \")
    };
    connect();
}
";
    let after = "\
fn run() {
    let stdin = read();
    let system = match backend {
        Backend::Old => OLD,
        Backend::New => NEW,
    };
    let mut history = make_history(stdin, system);
    connect();
}
";

    let hunks = planned("run.rs", before, after);
    let rows = hunks.iter().flat_map(|hunk| &hunk.rows).collect::<Vec<_>>();
    let delimiter_sides = rows
        .iter()
        .filter_map(|row| match row {
            DiffRow::LineChange {
                before: Some(line),
                after: None,
            } if line_text(line).trim() == "};" => Some('-'),
            DiffRow::LineChange {
                before: None,
                after: Some(line),
            } if line_text(line).trim() == "};" => Some('+'),
            _ => None,
        })
        .collect::<Vec<_>>();
    assert_eq!(delimiter_sides, ['-', '+'], "{hunks:#?}");

    let replacement = rows
        .iter()
        .filter_map(|row| match row {
            DiffRow::LineChange {
                before: Some(line),
                after: None,
            } => Some(('-', line_text(line).trim().to_string())),
            DiffRow::LineChange {
                before: None,
                after: Some(line),
            } => Some(('+', line_text(line).trim().to_string())),
            _ => None,
        })
        .collect::<Vec<_>>();
    assert_eq!(
        replacement,
        [
            ('-', "let mut history = make_history(stdin);".to_string()),
            ('-', "".to_string()),
            ('-', "// Build prompt from the arguments.".to_string()),
            ('-', "// Collect positional arguments.".to_string()),
            ('-', "let prompt = {".to_string()),
            ('-', "let mut args = std::env::args();".to_string()),
            ('-', "let _ = args.next();".to_string()),
            ('-', "args.collect::<Vec<_>>().join(\" \")".to_string()),
            ('-', "};".to_string()),
            ('+', "let system = match backend {".to_string()),
            ('+', "Backend::Old => OLD,".to_string()),
            ('+', "Backend::New => NEW,".to_string()),
            ('+', "};".to_string()),
            (
                '+',
                "let mut history = make_history(stdin, system);".to_string()
            ),
        ]
    );

    let mut current_started = false;
    for row in rows {
        let DiffRow::LineChange { before, after } = row else {
            continue;
        };
        if after.is_some() {
            current_started = true;
        }
        assert!(
            !current_started || before.is_none(),
            "before rows must not resume after current rows: {hunks:#?}",
        );
    }
}

#[test]
fn reordered_links_cannot_veto_stable_display_anchors() {
    let before = "fn run() {\n    alpha();\n    beta();\n}\n";
    let after = "fn run() {\n    beta();\n    alpha();\n}\n";
    let pair = pair_of("run.rs", before, after);
    let node_on_line = |tree: &SyntaxTree, line: usize| {
        tree.nodes
           
            .iter()
            .position(|node| node.kind == "expression_statement" && node.lines.start == line)
            .expect("statement on source line")
    };
    let links = vec![
        NodeLink {
            before: node_on_line(&pair.before, 2),
            after: node_on_line(&pair.after, 3),
            placement: Placement::Stable,
            parent: ParentCorrespondence::Direct,
            wrapper: None,
        },
        NodeLink {
            before: node_on_line(&pair.before, 3),
            after: node_on_line(&pair.after, 2),
            placement: Placement::Reordered,
            parent: ParentCorrespondence::Direct,
            wrapper: None,
        },
    ];
    let mut graph = correspond(&pair);
    graph.tree.composites = links.clone();
    let anchors = AnchorFacts::new(&pair);
    let scene = PlanScene { pair: &pair, graph: &graph, anchors: &anchors };

    let retained = retained_regions(&scene, &links, span(0..4), span(0..4));

    assert!(matches!(
        retained.as_slice(),
        [RetainedRegion {
            before,
            after,
            retention: Retention::Exact,
        }] if *before == span(1..2) && *after == span(2..3)
    ));
}

#[test]
fn nearby_soft_continuation_repeats_inside_the_revision_runs() {
    let before = "\
fn chain() {
    let value = source
        .old_first()
        .shared()
        .old_last();
}
";
    let after = before
        .replace("old_first", "new_first")
        .replace("old_last", "new_last");
    let hunks = planned("chain.rs", before, &after);
    let shared = hunks
        .iter()
        .flat_map(|hunk| &hunk.rows)
        .filter_map(|row| match row {
            DiffRow::LineChange {
                before: Some(line),
                after: None,
            } if line_text(line).contains(".shared()") => Some('-'),
            DiffRow::LineChange {
                before: None,
                after: Some(line),
            } if line_text(line).contains(".shared()") => Some('+'),
            _ => None,
        })
        .collect::<Vec<_>>();

    assert_eq!(shared, ['-', '+'], "{hunks:#?}");
    assert!(!hunks.iter().flat_map(|hunk| &hunk.rows).any(|row| {
        matches!(row, DiffRow::Line(line) | DiffRow::Reflow(line) if line_text(line).contains(".shared()"))
    }));
}

#[test]
fn distant_soft_continuations_remain_bounded_context() {
    let shared = (0..24)
        .map(|index| format!("        .shared_{index}()\n"))
        .collect::<String>();
    let before = format!(
        "\
fn chain() {{
    let value = source
        .old_first()
{shared}        .old_last();
}}
",
        shared = shared,
    );
    let after = before
        .replace("old_first", "new_first")
        .replace("old_last", "new_last");
    let hunks = planned("chain.rs", &before, &after);
    let rows = hunks.iter().flat_map(|hunk| &hunk.rows).collect::<Vec<_>>();
    let displayed_shared = rows
        .iter()
        .filter(|row| current_line(row).is_some_and(|line| line_text(line).contains(".shared_")))
        .count();

    assert!(hunks.len() >= 2, "{hunks:#?}");
    assert!(rows.iter().any(|row| matches!(row, DiffRow::Elision(_))));
    assert!(displayed_shared < 24, "{hunks:#?}");
    assert!(!rows.iter().any(|row| {
        matches!(
            row,
            DiffRow::LineChange { before, after }
                if before
                    .iter()
                    .chain(after)
                    .any(|line| line_text(line).contains(".shared_"))
        )
    }));
}

#[test]
fn crossed_exact_children_repeat_instead_of_anchoring_an_outer_deletion() {
    let before = "\
enum ReviewTreatment {
    Inline,
    Linewise,
    Compact,
}

enum Movement {
    Track,
    Ignore,
}

fn stable_tail() {}
";
    let after = "\
enum ReviewMode {
    Structural,
    Compact,
    Linewise,
}

fn stable_tail() {}
";
    let hunks = planned("projection.rs", before, after);
    let rows = hunks.iter().flat_map(|hunk| &hunk.rows).collect::<Vec<_>>();
    let position = |needle: &str, mark: DiffMark| {
        rows.iter().position(|row| match row {
            DiffRow::LineChange {
                before: Some(line),
                after: None,
            } if mark == DiffMark::Removed => line_text(line).contains(needle),
            DiffRow::LineChange {
                before: None,
                after: Some(line),
            } if mark == DiffMark::Added => line_text(line).contains(needle),
            _ => false,
        })
    };

    let old_review = position("enum ReviewTreatment", DiffMark::Removed).expect("old enum");
    let old_compact = position("Compact,", DiffMark::Removed).expect("old Compact variant");
    let new_review = position("enum ReviewMode", DiffMark::Added).expect("new enum");
    let new_linewise = position("Linewise,", DiffMark::Added).expect("new Linewise variant");
    let current_close = rows
        .iter()
        .position(|row| {
            matches!(
                row,
                DiffRow::LineChange {
                    before: None,
                    after: Some(line),
                } if line.number == 5 && line_text(line) == "}"
            )
        })
        .expect("current enum closing brace");
    let movement = position("enum Movement", DiffMark::Removed).expect("removed Movement enum");

    let replacement = rows
        .iter()
        .filter_map(|row| match row {
            DiffRow::LineChange {
                before: Some(line),
                after: None,
            } if !line_text(line).trim().is_empty() => {
                Some(('-', line_text(line).trim().to_owned()))
            }
            DiffRow::LineChange {
                before: None,
                after: Some(line),
            } if !line_text(line).trim().is_empty() => {
                Some(('+', line_text(line).trim().to_owned()))
            }
            _ => None,
        })
        .collect::<Vec<_>>();
    assert_eq!(
        replacement,
        [
            ('-', "enum ReviewTreatment {".to_owned()),
            ('-', "Inline,".to_owned()),
            ('-', "Linewise,".to_owned()),
            ('-', "Compact,".to_owned()),
            ('-', "}".to_owned()),
            ('+', "enum ReviewMode {".to_owned()),
            ('+', "Structural,".to_owned()),
            ('+', "Compact,".to_owned()),
            ('+', "Linewise,".to_owned()),
            ('+', "}".to_owned()),
            ('-', "enum Movement {".to_owned()),
            ('-', "Track,".to_owned()),
            ('-', "Ignore,".to_owned()),
            ('-', "}".to_owned()),
        ],
        "{hunks:#?}",
    );

    assert!(old_review < old_compact && old_compact < new_review);
    assert!(new_review < new_linewise && new_linewise < current_close);
    assert!(current_close < movement, "{hunks:#?}");
    for variant in ["Compact,", "Linewise,"] {
        assert_eq!(
            rows.iter()
                .filter(|row| {
                    matches!(
                        row,
                        DiffRow::LineChange {
                            before: Some(line),
                            after: None,
                        } if line_text(line).contains(variant)
                    )
                })
                .count(),
            1,
            "{variant} must occur once in the old run: {hunks:#?}",
        );
        assert_eq!(
            rows.iter()
                .filter(|row| {
                    matches!(
                        row,
                        DiffRow::LineChange {
                            before: None,
                            after: Some(line),
                        } if line_text(line).contains(variant)
                    )
                })
                .count(),
            1,
            "{variant} must occur once in the current run: {hunks:#?}",
        );
        assert!(!rows.iter().any(|row| {
            matches!(row, DiffRow::Line(line) | DiffRow::Reflow(line) if line_text(line).contains(variant))
        }));
    }
}

#[test]
fn replaced_owner_repeats_its_shared_delimiter() {
    let hunks = planned(
        "projection.rs",
        "\
enum Old {
    Gone,
    Compact,
}
fn tail() {}
",
        "\
enum New {
    Added,
    Compact,
}
fn tail() {}
",
    );
    let replacement = hunks
        .iter()
        .flat_map(|hunk| &hunk.rows)
        .filter_map(|row| match row {
            DiffRow::LineChange {
                before: Some(line),
                after: None,
            } => Some(('-', line_text(line).trim().to_owned())),
            DiffRow::LineChange {
                before: None,
                after: Some(line),
            } => Some(('+', line_text(line).trim().to_owned())),
            _ => None,
        })
        .collect::<Vec<_>>();

    assert_eq!(
        replacement,
        [
            ('-', "enum Old {".to_owned()),
            ('-', "Gone,".to_owned()),
            ('-', "Compact,".to_owned()),
            ('-', "}".to_owned()),
            ('+', "enum New {".to_owned()),
            ('+', "Added,".to_owned()),
            ('+', "Compact,".to_owned()),
            ('+', "}".to_owned()),
        ],
        "{hunks:#?}",
    );
}

#[test]
fn documentation_does_not_turn_crossing_variants_into_display_anchors() {
    let before = "\
/// Planner treatment requested by a semantic review boundary.
#[derive(Clone, Copy, Debug, Eq, Hash, PartialEq)]
pub(crate) enum ReviewTreatment {
    Inline,
    Linewise,
    Compact,
}

/// Whether stable-order analysis may classify a review boundary as moved.
#[derive(Clone, Copy, Debug, Eq, Hash, PartialEq)]
pub(crate) enum Movement {
    Track,
    Ignore,
}
";
    let after = "\
/// How one independently matched review unit is compared and presented.
#[derive(Clone, Copy, Debug, Eq, Hash, PartialEq)]
pub(crate) enum ReviewMode {
    /// Structure-aware content eligible for move and reflow detection.
    Structural,
    /// Low-signal content kept compact when its replacement fits one line.
    Compact,
    /// Content compared and presented through physical lines.
    Linewise,
}
";
    let hunks = planned("projection.rs", before, after);
    assert_eq!(hunks.len(), 1, "adjacent review facts must stay together");
    assert!(
        !hunks[0]
            .rows
            .iter()
            .any(|row| matches!(row, DiffRow::Elision(_)))
    );
    let rows = hunks.iter().flat_map(|hunk| &hunk.rows).collect::<Vec<_>>();
    assert!(rows.iter().any(|row| {
        matches!(
            row,
            DiffRow::LineChange {
                before: Some(before),
                after: Some(after),
            } if before.number == 1
                && after.number == 1
                && line_text(before).contains("Planner treatment")
                && line_text(after).contains("independently matched review unit")
        )
    }));
    let replacement = rows
        .iter()
        .filter_map(|row| match row {
            DiffRow::LineChange {
                before: Some(line),
                after: None,
            } if !line_text(line).trim().is_empty() => {
                Some(('-', line.number, line_text(line).trim().to_owned()))
            }
            DiffRow::LineChange {
                before: None,
                after: Some(line),
            } if !line_text(line).trim().is_empty() => {
                Some(('+', line.number, line_text(line).trim().to_owned()))
            }
            _ => None,
        })
        .collect::<Vec<_>>();

    assert_eq!(
        replacement,
        [
            ('-', 3, "pub(crate) enum ReviewTreatment {".to_owned()),
            ('-', 4, "Inline,".to_owned()),
            ('-', 5, "Linewise,".to_owned()),
            ('-', 6, "Compact,".to_owned()),
            ('-', 7, "}".to_owned()),
            ('+', 3, "pub(crate) enum ReviewMode {".to_owned()),
            (
                '+',
                4,
                "/// Structure-aware content eligible for move and reflow detection.".to_owned(),
            ),
            ('+', 5, "Structural,".to_owned()),
            (
                '+',
                6,
                "/// Low-signal content kept compact when its replacement fits one line."
                    .to_owned(),
            ),
            ('+', 7, "Compact,".to_owned()),
            (
                '+',
                8,
                "/// Content compared and presented through physical lines.".to_owned(),
            ),
            ('+', 9, "Linewise,".to_owned()),
            ('+', 10, "}".to_owned()),
            (
                '-',
                9,
                "/// Whether stable-order analysis may classify a review boundary as moved."
                    .to_owned(),
            ),
            (
                '-',
                10,
                "#[derive(Clone, Copy, Debug, Eq, Hash, PartialEq)]".to_owned(),
            ),
            ('-', 11, "pub(crate) enum Movement {".to_owned()),
            ('-', 12, "Track,".to_owned()),
            ('-', 13, "Ignore,".to_owned()),
            ('-', 14, "}".to_owned()),
        ],
        "{hunks:#?}",
    );
    assert!(rows.iter().any(|row| {
        matches!(
            row,
            DiffRow::Line(line)
                if line.number == 2
                    && line_text(line) == "#[derive(Clone, Copy, Debug, Eq, Hash, PartialEq)]"
        )
    }));
    for variant in ["Compact,", "Linewise,"] {
        assert!(!rows.iter().any(|row| {
            matches!(row, DiffRow::Line(line) | DiffRow::Reflow(line) if line_text(line).contains(variant))
        }));
    }
}

#[test]
fn stable_attribute_subtrees_cannot_become_structural_checkpoints() {
    let before = "\
mod tests {
    #[test]
    fn alpha() { old(); }
}
";
    let after = "\
mod tests {
    #[test]
    fn alpha() { new(); }
}
";
    let pair = pair_of("lib.rs", before, after);
    let graph = correspond(&pair);
    let attribute = graph
        .tree
        .composites
        .iter()
        .copied()
        .find(|link| pair.before.node(link.before).kind == "attribute_item")
        .expect("the stable test attribute must remain structurally paired");
    let nested = graph
        .tree
        .composites
        .iter()
        .copied()
        .find(|link| {
            link.before != attribute.before && pair.before.contains(attribute.before, link.before)
        })
        .expect("the attribute must retain a paired nested subtree");
    let before_region = span(0..pair.before.source.lines().len());
    let after_region = span(0..pair.after.source.lines().len());
    let anchors = AnchorFacts::new(&pair);
    let scene = PlanScene { pair: &pair, graph: &graph, anchors: &anchors };

    assert!(scene.link_belongs_to_decoration(&attribute));
    assert_eq!(pair.before.node(nested.before).decoration_owner, None);
    assert!(scene.link_belongs_to_decoration(&nested));
    assert!(retained_region(&scene, &attribute, before_region, after_region).is_none());
    assert!(
        retained_regions(&scene, &[attribute, nested], before_region, after_region).is_empty()
    );
}

#[test]
fn modified_expression_keeps_both_sides_and_its_owner() {
    let before = "\
fn make_history() {
    let reasoning = reasoning();
    let mut history = vec![Message::System(
        SYSTEM_PREAMBLE
            .replace(\"cutoff\", \"old\")
            .replace(\"reasoning\", &reasoning),
    )];
}
";
    let after = before.replace("SYSTEM_PREAMBLE", "system_preamble");

    let hunks = planned("history.rs", before, &after);
    assert!(hunks.iter().flat_map(|hunk| &hunk.rows).any(|row| {
        matches!(
            row,
            DiffRow::LineChange {
                before: Some(before),
                after: Some(after),
            } if line_text(before).contains("SYSTEM_PREAMBLE")
                && line_text(after).contains("system_preamble")
        )
    }));
    for context in [
        "fn make_history",
        "let mut history = vec!",
        ".replace(\"cutoff\"",
        ".replace(\"reasoning\"",
    ] {
        assert!(
                hunks.iter().flat_map(|hunk| &hunk.rows).any(|row| {
                    matches!(row, DiffRow::Line(line) | DiffRow::Reflow(line) if line_text(line).contains(context))
                }),
                "missing {context:?}: {hunks:#?}",
            );
    }
}

#[test]
fn unmatched_units_at_one_edit_gap_render_before_then_current() {
    let hunks = planned(
        "lib.rs",
        "use crate::old;\nfn stable() {}\n",
        "const NEW: u8 = 1;\nfn stable() {}\n",
    );
    let changes = hunks
        .iter()
        .flat_map(|hunk| &hunk.rows)
        .filter_map(|row| match row {
            DiffRow::LineChange {
                before: Some(line),
                after: None,
            } => Some(('-', line_text(line))),
            DiffRow::LineChange {
                before: None,
                after: Some(line),
            } => Some(('+', line_text(line))),
            _ => None,
        })
        .collect::<Vec<_>>();

    assert_eq!(hunks.len(), 1, "{hunks:#?}");
    assert_eq!(
        changes,
        [
            ('-', "use crate::old;".to_string()),
            ('+', "const NEW: u8 = 1;".to_string()),
        ]
    );
}

#[test]
fn one_edit_gap_preserves_old_source_order_before_current() {
    let hunks = planned(
        "lib.rs",
        "use crate::old;\nfn run() {}\n",
        "const KEEP: u8 = 1;\n",
    );
    let changes = hunks
        .iter()
        .flat_map(|hunk| &hunk.rows)
        .filter_map(|row| match row {
            DiffRow::LineChange {
                before: Some(line),
                after: None,
            } => Some(('-', line.number, line_text(line))),
            DiffRow::LineChange {
                before: None,
                after: Some(line),
            } => Some(('+', line.number, line_text(line))),
            _ => None,
        })
        .collect::<Vec<_>>();

    assert_eq!(hunks.len(), 1, "{hunks:#?}");
    assert_eq!(
        changes,
        [
            ('-', 1, "use crate::old;".to_string()),
            ('-', 2, "fn run() {}".to_string()),
            ('+', 1, "const KEEP: u8 = 1;".to_string()),
        ],
    );
}

#[test]
fn one_sided_wiring_removal_keeps_current_file_context() {
    let hunks = planned(
        "lib.rs",
        "\
use crate::old;
use crate::kept;

fn run() {}
fn nearby() {}
fn far_one() {}
fn far_two() {}
",
        "\
use crate::kept;

fn run() {}
fn nearby() {}
fn far_one() {}
fn far_two() {}
",
    );
    let rows = &hunks[0].rows;
    let removed = rows
        .iter()
        .position(|row| {
            matches!(
                row,
                DiffRow::LineChange {
                    before: Some(line),
                    after: None,
                } if line_text(line).contains("crate::old")
            )
        })
        .expect("removed import");
    let kept = rows
        .iter()
        .position(|row| {
            matches!(
                row,
                DiffRow::Line(line)
                    if !line.has_changes()
                        && line.number == 1
                        && line_text(line).contains("crate::kept")
            )
        })
        .expect("remaining import context");

    assert!(removed < kept, "{hunks:#?}");
    assert!(rows.iter().any(|row| {
        matches!(row, DiffRow::Line(line) if line.number == 2 && line_text(line).is_empty())
    }));
    assert!(rows.iter().any(|row| {
        matches!(row, DiffRow::Line(line) if line.number == 3 && line_text(line).contains("fn run"))
    }));
    assert!(rows.iter().any(|row| {
            matches!(row, DiffRow::Line(line) if line.number == 4 && line_text(line).contains("fn nearby"))
        }));
    assert!(!rows.iter().any(|row| {
        current_line(row).is_some_and(|line| {
            line.number >= 5
                && (line_text(line).contains("far_one") || line_text(line).contains("far_two"))
        })
    }));
}

#[test]
fn exact_stable_statement_remains_context_between_replacements() {
    let hunks = planned(
        "lib.rs",
        "\
fn run() {
    old_before();
    stable();
    old_after();
}
",
        "\
fn run() {
    new_before();
    stable();
    new_after();
}
",
    );
    let stable = hunks
        .iter()
        .flat_map(|hunk| &hunk.rows)
        .filter(|row| match row {
            DiffRow::Line(line) if !line.has_changes() => line_text(line).contains("stable();"),
            DiffRow::LineChange { before, after } => before
                .as_ref()
                .into_iter()
                .chain(after)
                .any(|line| line_text(line).contains("stable();")),
            _ => false,
        })
        .collect::<Vec<_>>();

    assert!(matches!(stable.as_slice(), [DiffRow::Line(_)]));
}

#[test]
fn stable_delimiter_only_leaf_is_weak_in_a_parsed_cst() {
    let hunks = planned(
        "lib.rs",
        "\
fn run() {
    let value = {
        old_one();
    };
    old_two();
}
",
        "\
fn run() {
    let value = {
        new_one();
    };
    new_two();
}
",
    );
    let replacement = hunks
        .iter()
        .flat_map(|hunk| &hunk.rows)
        .filter_map(|row| match row {
            DiffRow::LineChange {
                before: Some(line),
                after: None,
            } => Some(('-', line_text(line).trim().to_string())),
            DiffRow::LineChange {
                before: None,
                after: Some(line),
            } => Some(('+', line_text(line).trim().to_string())),
            _ => None,
        })
        .collect::<Vec<_>>();

    assert_eq!(
        replacement,
        [
            ('-', "old_one();".to_string()),
            ('-', "};".to_string()),
            ('-', "old_two();".to_string()),
            ('+', "new_one();".to_string()),
            ('+', "};".to_string()),
            ('+', "new_two();".to_string()),
        ],
        "{hunks:#?}",
    );
}

#[test]
fn multiline_leaf_checkpoint_strength_is_physical_line_local() {
    let source = "/* label\n};\n*/\nfn run() {}\n";
    let pair = pair_of("lib.rs", source, source);

    let graph = correspond(&pair);
    let anchors = AnchorFacts::new(&pair);
    let scene = PlanScene { pair: &pair, graph: &graph, anchors: &anchors };
    let checkpoint = |row: usize| {
        line_link_is_display_checkpoint(&scene, LineLink { before: row, after: row })
    };

    assert!(checkpoint(0));
    assert!(!checkpoint(1));
    assert!(!checkpoint(2));
}

#[test]
fn weak_layout_rows_group_locally_but_never_unboundedly() {
    for (path, before, after) in [
        (
            "lib.rs",
            "fn run() {\n    old_one();\n\n    old_two();\n}\n",
            "fn run() {\n    new_one();\n\n    new_two();\n}\n",
        ),
        (
            "notes.txt",
            "old_one();\n\nold_two();\n",
            "new_one();\n\nnew_two();\n",
        ),
    ] {
        let hunks = planned(path, before, after);
        let blank = hunks
            .iter()
            .flat_map(|hunk| &hunk.rows)
            .filter_map(|row| match row {
                DiffRow::LineChange {
                    before: Some(line),
                    after: None,
                } => Some(('-', line_text(line).trim().to_string())),
                DiffRow::LineChange {
                    before: None,
                    after: Some(line),
                } => Some(('+', line_text(line).trim().to_string())),
                _ => None,
            })
            .collect::<Vec<_>>();
        assert_eq!(
            blank,
            [
                ('-', "old_one();".to_string()),
                ('-', "".to_string()),
                ('-', "old_two();".to_string()),
                ('+', "new_one();".to_string()),
                ('+', "".to_string()),
                ('+', "new_two();".to_string()),
            ],
            "{path}: {hunks:#?}",
        );
    }

    let delimiter = planned(
        "notes.txt",
        "old_one();\n};\nold_two();\n",
        "new_one();\n};\nnew_two();\n",
    );
    let delimiter = delimiter
        .iter()
        .flat_map(|hunk| &hunk.rows)
        .filter_map(|row| match row {
            DiffRow::LineChange {
                before: Some(line),
                after: None,
            } => Some(('-', line_text(line))),
            DiffRow::LineChange {
                before: None,
                after: Some(line),
            } => Some(('+', line_text(line))),
            _ => None,
        })
        .collect::<Vec<_>>();
    assert_eq!(
        delimiter,
        [
            ('-', "old_one();".to_string()),
            ('-', "};".to_string()),
            ('-', "old_two();".to_string()),
            ('+', "new_one();".to_string()),
            ('+', "};".to_string()),
            ('+', "new_two();".to_string()),
        ]
    );

    for weak in ["};\n".repeat(30), "\n".repeat(30)] {
        let before = format!("old_one();\n{weak}old_two();\n");
        let after = format!("new_one();\n{weak}new_two();\n");
        let focused = planned("notes.txt", &before, &after);
        let replacements = focused
            .iter()
            .flat_map(|hunk| &hunk.rows)
            .filter(|row| matches!(row, DiffRow::LineChange { .. }))
            .count();

        assert_eq!(focused.len(), 2, "{focused:#?}");
        assert!(replacements < 30, "weak context expanded without bound");
    }

    for (weak_rows, expected_hunks) in [(7, 1), (8, 2)] {
        let weak = "};\n".repeat(weak_rows);
        let before = format!("old_one();\n{weak}old_two();\n");
        let after = format!("new_one();\n{weak}new_two();\n");
        let focused = planned("notes.txt", &before, &after);
        assert_eq!(focused.len(), expected_hunks, "{focused:#?}");
    }
}

#[test]
fn mixed_move_hunk_still_completes_payload_edit_context() {
    let hunks = planned(
        "lib.rs",
        "fn first() { one(); }\nfn second() { two(); }\n",
        "\
fn second() { two(); }
fn first() { one(); }
use crate::new;
",
    );
    assert_eq!(hunks.len(), 1, "{hunks:#?}");
    let rows = &hunks[0].rows;
    assert!(rows.iter().any(|row| matches!(
        row,
        DiffRow::Moved {
            before: Some(1),
            after,
        } if after.number == 2
    )));
    assert!(rows.iter().any(|row| matches!(
        row,
        DiffRow::LineChange {
            before: None,
            after: Some(line),
        } if line.number == 3 && line_text(line).contains("crate::new")
    )));
    assert!(
        rows.iter().any(|row| matches!(
            row,
            DiffRow::Line(line)
                if !line.has_changes()
                    && line.number == 1
                    && line_text(line).contains("fn second")
        )),
        "mixed move hunk lost current-file context: {hunks:#?}"
    );
}

#[test]
fn current_bearing_move_and_replacement_groups_follow_current_source() {
    let hunks = planned(
        "lib.rs",
        "\
fn first() { one(); }
fn second() { two(); }
fn third() { three(); }
",
        "\
fn third() { changed_three(); }
fn second() { two(); }
fn first() { one(); }
",
    );
    let signals = hunks
        .iter()
        .flat_map(|hunk| &hunk.rows)
        .filter_map(|row| match row {
            DiffRow::Moved { after, .. }
            | DiffRow::LineChange {
                after: Some(after), ..
            } => Some(after.number),
            _ => None,
        })
        .collect::<Vec<_>>();

    assert_eq!(signals, [1, 2, 3], "{hunks:#?}");
}

#[test]
fn changed_callable_header_is_still_a_distant_body_breadcrumb() {
    let body = (0..12)
        .map(|index| format!("    stable_{index}();\n"))
        .collect::<String>();
    let before = format!("fn run(value: u8) {{\n{body}    old();\n}}\n");
    let after = format!("fn run() {{\n{body}    new();\n}}\n");
    let hunks = planned("lib.rs", &before, &after);
    let body = hunks
        .iter()
        .find(|hunk| {
            hunk.rows.iter().any(|row| {
                matches!(
                    row,
                    DiffRow::LineChange {
                        after: Some(line),
                        ..
                    } if line_text(line).contains("new();")
                )
            })
        })
        .expect("body replacement hunk");

    assert!(body.rows.iter().any(|row| {
        matches!(
            row,
            DiffRow::Line(line)
                if !line.has_changes()
                    && line.number == 1
                    && line_text(line).contains("fn run()")
        )
    }));
    assert!(
        body.rows
            .iter()
            .any(|row| matches!(row, DiffRow::Elision(_)))
    );
    for local in ["stable_9", "stable_10", "stable_11"] {
        assert!(body.rows.iter().any(|row| {
                matches!(row, DiffRow::Line(line) | DiffRow::Reflow(line) if line_text(line).contains(local))
            }));
    }
    for breadcrumb_context in ["stable_0", "stable_1", "stable_2"] {
        assert!(body.rows.iter().any(|row| {
                matches!(row, DiffRow::Line(line) | DiffRow::Reflow(line) if line_text(line).contains(breadcrumb_context))
            }));
    }
    assert!(!body.rows.iter().any(|row| {
            matches!(row, DiffRow::Line(line) | DiffRow::Reflow(line) if line_text(line).contains("stable_3"))
        }));
}

#[test]
fn history_shape_crosses_unit_boundaries_without_losing_source_order() {
    let before = "\
//! Extensions to handle lists of messages.
use crate::prompting::SYSTEM_PREAMBLE;
use crate::protocol::Message;

/// Compose a full session history from the default preamble
/// and optional stdin/extra contexts in the canonical order.
pub fn make_history(
    stdin_content: Option<String>,
    stdout_redirection_path: Option<String>,
) -> Vec<Message> {
    let now = time::OffsetDateTime::now_local();
    let now = now.date().to_string();
    let reasoning = std::env::var(\"PLEASE_TRY\")
        .ok()
        .map(|v| v.trim().to_lowercase())
        .and_then(|v| match v.as_str() {
            _ if v.starts_with(\"h\") => Some(\"high\".to_string()),
            _ if v.starts_with(\"m\") => Some(\"medium\".to_string()),
            _ => None,
        })
        .unwrap_or_else(|| \"medium\".to_string());
    let mut history = vec![Message::System(
        SYSTEM_PREAMBLE
            .replace(\"cutoff\", \"old\")
            .replace(\"today\", &now)
            .replace(\"reasoning\", &reasoning),
    )];
}
";
    let after = before
        .replace("use crate::prompting::SYSTEM_PREAMBLE;\n", "")
        .replace("default preamble", "selected backend preamble")
        .replace(
            "    stdout_redirection_path: Option<String>,\n",
            "    stdout_redirection_path: Option<String>,
    system_preamble: &str,
",
        )
        .replace("        SYSTEM_PREAMBLE\n", "        system_preamble\n");
    let hunks = planned("history.rs", before, &after);
    assert_eq!(
        hunks.len(),
        2,
        "adjacent top edits coalesce, while the distant use-site repeats its scope"
    );
    let rows = hunks.iter().flat_map(|hunk| &hunk.rows).collect::<Vec<_>>();
    let position = |predicate: &dyn Fn(&DiffRow) -> bool| {
        rows.iter()
            .position(|row| predicate(row))
            .unwrap_or_else(|| panic!("expected history row: {hunks:#?}"))
    };
    let module = position(&|row| matches!(row, DiffRow::Line(line) if line.number == 1));
    let removed_import = position(&|row| {
        matches!(
            row,
            DiffRow::LineChange {
                before: Some(line),
                after: None,
            } if line_text(line).contains("SYSTEM_PREAMBLE;")
        )
    });
    let remaining_import = position(
        &|row| matches!(row, DiffRow::Line(line) if line.number == 2 && line_text(line).contains("protocol::Message")),
    );
    let blank = position(
        &|row| matches!(row, DiffRow::Line(line) if line.number == 3 && line_text(line).is_empty()),
    );
    let doc = position(&|row| {
        matches!(
            row,
            DiffRow::LineChange {
                before: Some(before),
                after: Some(after),
            } if line_text(before).contains("default preamble")
                && line_text(after).contains("selected backend preamble")
        )
    });
    let continuation = position(
        &|row| matches!(row, DiffRow::Line(line) if line.number == 5 && line_text(line).contains("optional stdin")),
    );
    let definition = position(
        &|row| matches!(row, DiffRow::Line(line) if line.number == 6 && line_text(line).contains("make_history")),
    );
    let stdout = position(
        &|row| matches!(row, DiffRow::Line(line) if line.number == 8 && line_text(line).contains("stdout_redirection_path")),
    );
    let parameter = position(&|row| {
        matches!(
            row,
            DiffRow::LineChange {
                before: None,
                after: Some(line),
            } if line.number == 9 && line_text(line).contains("system_preamble: &str")
        )
    });
    let signature_end = position(
        &|row| matches!(row, DiffRow::Line(line) if line.number == 10 && line_text(line).contains(") -> Vec<Message>")),
    );

    assert!(module < removed_import);
    assert!(removed_import < remaining_import);
    assert!(remaining_import < blank);
    assert!(blank < doc);
    assert!(doc < continuation);
    assert!(continuation < definition);
    assert!(definition < stdout);
    assert_eq!(stdout + 1, parameter, "added parameter must follow stdout");
    assert_eq!(
        parameter + 1,
        signature_end,
        "signature must stay contiguous"
    );
    assert_eq!(
        rows.iter()
            .filter(|row| {
                matches!(
                    row,
                    DiffRow::Line(line)
                        if line_text(line).contains("pub fn make_history")
                )
            })
            .count(),
        2,
        "each distant window needs its callable breadcrumb: {hunks:#?}",
    );

    let local_position = |number| {
        rows.iter()
            .position(|row| current_line(row).is_some_and(|line| line.number == number))
            .unwrap_or_else(|| panic!("missing history line {number}: {hunks:#?}"))
    };
    let local = [20, 21, 22, 23, 24, 25, 26].map(local_position);
    assert!(
        local.windows(2).all(|pair| pair[0] + 1 == pair[1]),
        "expression owner and chain must stay contiguous: {hunks:#?}",
    );
    assert!(matches!(
        rows[local[3]],
        DiffRow::LineChange {
            before: Some(_),
            after: Some(_),
        }
    ));
    let elision = rows
        .iter()
        .position(|row| matches!(row, DiffRow::Elision(_)))
        .expect("distant history context must remain folded");
    assert!(signature_end < elision && elision < local[0], "{hunks:#?}");
}

#[test]
fn context_halo_coalescing_has_an_exact_seven_line_boundary() {
    let review = |context: usize| {
        let stable = (0..context)
            .map(|index| format!("// stable {index}\n"))
            .collect::<String>();
        planned(
            "lib.rs",
            &format!("fn first() {{ old(); }}\n{stable}fn second() {{ old(); }}\n"),
            &format!("fn first() {{ new(); }}\n{stable}fn second() {{ new(); }}\n"),
        )
    };

    let touching = review(7);
    assert_eq!(touching.len(), 1, "{touching:#?}");
    assert!(
        touching[0]
            .rows
            .iter()
            .all(|row| !matches!(row, DiffRow::Elision(_)))
    );

    let separate = review(8);
    assert_eq!(separate.len(), 2, "{separate:#?}");
}

#[test]
fn multiline_wiring_units_keep_physical_rows() {
    for (path, before, after) in [
        (
            "lib.rs",
            "use crate::{\n    Alpha,\n    Beta,\n};\n",
            "use crate::{\n    Alpha,\n    Beta,\n    Gamma,\n};\n",
        ),
        (
            "view.ts",
            "import {\n  Alpha,\n  Beta,\n} from \"pkg\";\n",
            "import {\n  Alpha,\n  Beta,\n  Gamma,\n} from \"pkg\";\n",
        ),
    ] {
        let hunks = planned(path, before, after);
        assert!(
            !hunks
                .iter()
                .flat_map(|hunk| &hunk.rows)
                .any(|row| matches!(row, DiffRow::Wordwise(_)))
        );
        assert!(
            hunks.iter().flat_map(|hunk| &hunk.rows).any(|row| {
                matches!(
                    row,
                    DiffRow::LineChange {
                        after: Some(line),
                        ..
                    } if line_text(line).contains("Gamma")
                )
            }),
            "{path}: {hunks:#?}"
        );
    }
}

#[test]
fn jsx_wrapper_reuses_generic_reparented_subtree_handling() {
    let before = "function View() {\n  return (\n    <article>\n      <img src=\"x\" />\n    </article>\n  );\n}\n";
    let after = "function View() {\n  return (\n    <article>\n      <div>\n        <img src=\"x\" />\n      </div>\n    </article>\n  );\n}\n";
    let hunks = planned("view.tsx", before, after);

    assert!(
        hunks.iter().flat_map(|hunk| &hunk.rows).any(|row| {
            matches!(
                row,
                DiffRow::Reflow(line) if line_text(line).trim_start().starts_with("<img")
            )
        }),
        "{hunks:#?}"
    );
    assert!(!hunks.iter().flat_map(|hunk| &hunk.rows).any(|row| {
        matches!(
            row,
            DiffRow::LineChange { before, after }
                if before.iter().chain(after).any(|line| line_text(line).contains("<img"))
        )
    }));
}

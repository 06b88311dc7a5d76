//! Review of two revisions of one file.

use crate::correspondence::{correspond, has_matching, is_row_projection, Correspondence};
use crate::frontend::{is_pair_of, path_language, syntax_pair, FrontendError};
use crate::plan::{hunks_review, plan_hunks};
use crate::presentation::{hunks_ok, hunks_shown, present_hunks, PresentedFile, ReviewHunk};
use crate::review::RefinedHunk;
use crate::source::Source;
use crate::syntax::SyntaxPair;
use crate::text::{
    all_white, alphanumeric, chars_of, is_alphanumeric, is_white, lemma_encode_injective, same_str,
    white,
};
use vstd::prelude::*;
use vstd::string::*;
use vstd::utf8::*;

verus! {

/// Largest physical-line arena expanded for one revision.
pub const MAX_REVISION_LINES: usize = 100_000;

/// Lines at the head of a file in which a generated marker counts.
pub const MARKER_LINES: usize = 20;

/// Why two revisions cannot be reviewed.
#[derive(Clone, Copy, Debug, PartialEq, Eq, Structural)]
pub enum DiffError {
    /// A revision has more lines than the limit.
    TooManyLines,
    /// The syntax frontend could not be set up.
    Frontend(FrontendError),
}

/// The text holds the part at a position.
pub open spec fn holds_at(text: Seq<char>, at: int, part: Seq<char>) -> bool {
    0 <= at && at + part.len() <= text.len() && text.subrange(at, at + part.len()) == part
}

/// Whether a text holds a part at a position.
fn part_at(text: &Vec<char>, at: usize, part: &str) -> (found: bool)
    ensures
        found == holds_at(text@, at as int, part@),
{
    let wanted = chars_of(part);
    if at > text.len() || wanted.len() > text.len() - at {
        return false;
    }
    let mut offset: usize = 0;
    while offset < wanted.len()
        invariant
            wanted@ == part@,
            at <= text.len(),
            at + wanted@.len() <= text@.len(),
            offset <= wanted@.len(),
            forall|k: int| 0 <= k < offset ==> text@[#[trigger] (at + k)] == wanted@[k],
        decreases wanted@.len() - offset,
    {
        assert(at + offset < text.len());
        if text[at + offset] != wanted[offset] {
            assert(text@.subrange(at as int, at + part@.len())[offset as int] != part@[offset as int]);
            return false;
        }
        offset += 1;
    }
    proof {
        assert forall|k: int| 0 <= k < part@.len() implies text@.subrange(
            at as int,
            at + part@.len(),
        )[k] == part@[k] by {
            assert(text@[at + k] == wanted@[k]);
        }
        assert(text@.subrange(at as int, at + part@.len()) =~= part@);
    }
    true
}

/// First character that is not white space, or the end.
pub open spec fn is_trim_start(text: Seq<char>, start: int) -> bool {
    &&& 0 <= start <= text.len()
    &&& forall|k: int| 0 <= k < start ==> is_white(#[trigger] text[k])
    &&& start < text.len() ==> !is_white(text[start])
}

/// The text starts as a comment line, or with the marker itself.
pub open spec fn opens_marker_line(text: Seq<char>, start: int) -> bool {
    ||| holds_at(text, start, "@generated"@)
    ||| holds_at(text, start, "//"@)
    ||| holds_at(text, start, "#"@)
    ||| holds_at(text, start, "/*"@)
    ||| holds_at(text, start, "*"@)
    ||| holds_at(text, start, "<!--"@)
    ||| holds_at(text, start, "--"@)
    ||| holds_at(text, start, ";"@)
}

/// A character that would make the marker part of a longer word to its left.
pub open spec fn joins_before(c: char) -> bool {
    alphanumeric(c) || c == '_'
}

/// A character that would make the marker part of a longer word or path to its right.
pub open spec fn joins_after(c: char) -> bool {
    alphanumeric(c) || c == '_' || c == '/' || c == '-'
}

/// The marker stands alone at a position.
pub open spec fn marker_at(text: Seq<char>, start: int, at: int) -> bool {
    let width = "@generated"@.len();
    &&& start <= at
    &&& holds_at(text, at, "@generated"@)
    &&& at > start ==> !joins_before(text[at - 1])
    &&& at + width < text.len() ==> !joins_after(text[at + width])
}

/// The line declares its file generated: a comment line with the marker as a word of its own.
pub open spec fn is_marker_line(text: Seq<char>) -> bool {
    exists|start: int, at: int|
        is_trim_start(text, start) && opens_marker_line(text, start) && #[trigger] marker_at(
            text,
            start,
            at,
        )
}

/// The text has the word at a position, with no letter, digit or underscore beside it, nor a slash
/// or hyphen behind it.
pub open spec fn has_lone_word(text: Seq<char>, word: Seq<char>, at: int) -> bool {
    &&& 0 <= at && at + word.len() <= text.len()
    &&& forall|k: int| 0 <= k < word.len() ==> text[#[trigger] (at + k)] == word[k]
    &&& at + word.len() < text.len() ==> !alphanumeric(text[at + word.len() as int]) && text[at
        + word.len() as int] != '_' && text[at + word.len() as int] != '/' && text[at
        + word.len() as int] != '-'
}

/// A line that declares its file generated holds the marker as a word of its own, behind nothing
/// but white space and the sign of a comment if it is the first word, and however it is indented.
pub proof fn law_generated_marker_is_a_word(text: Seq<char>, indent: Seq<char>)
    requires
        all_white(indent),
    ensures
        is_marker_line(text) ==> exists|at: int|
            #![trigger has_lone_word(text, "@generated"@, at)]
            has_lone_word(text, "@generated"@, at) && (at > 0 && !is_white(text[at - 1])
                ==> !alphanumeric(text[at - 1]) && text[at - 1] != '_'),
        is_marker_line(text) <==> is_marker_line(indent + text),
{
    let wide = indent + text;
    let width = indent.len() as int;
    if is_marker_line(text) {
        let (start, at) = choose|start: int, at: int|
            is_trim_start(text, start) && opens_marker_line(text, start) && #[trigger] marker_at(
                text,
                start,
                at,
            );
        let word = "@generated"@;
        assert(text.subrange(at, at + word.len()) == word);
        assert forall|k: int| 0 <= k < word.len() implies text[#[trigger] (at + k)] == word[k] by {
            assert(text.subrange(at, at + word.len())[k] == word[k]);
        }
        if at == start && at > 0 {
            assert(is_white(text[at - 1]));
        }
        assert(has_lone_word(text, word, at));
        lemma_indented_parts(text, indent, start, at);
        assert(is_trim_start(wide, width + start)) by {
            assert forall|k: int| 0 <= k < width + start implies is_white(#[trigger] wide[k]) by {
                if k < width {
                    assert(wide[k] == indent[k]);
                } else {
                    assert(wide[k] == text[k - width]);
                }
            }
        }
        assert(marker_at(wide, width + start, width + at));
    }
    if is_marker_line(wide) {
        let (start, at) = choose|start: int, at: int|
            is_trim_start(wide, start) && opens_marker_line(wide, start) && #[trigger] marker_at(
                wide,
                start,
                at,
            );
        if start < width {
            if start < wide.len() {
                assert(wide[start] == indent[start]);
                assert(is_white(indent[start]));
            }
        }
        lemma_indented_parts(text, indent, start - width, at - width);
        assert(is_trim_start(text, start - width)) by {
            assert forall|k: int| 0 <= k < start - width implies is_white(#[trigger] text[k]) by {
                assert(wide[k + width] == text[k]);
            }
        }
        assert(marker_at(text, start - width, at - width));
    }
}

/// Parts behind an indentation are found where they were, as far as it is wide.
proof fn lemma_indented_parts(text: Seq<char>, indent: Seq<char>, start: int, at: int)
    requires
        0 <= start <= at,
    ensures
        opens_marker_line(text, start) <==> opens_marker_line(
            indent + text,
            indent.len() as int + start,
        ),
        holds_at(text, at, "@generated"@) <==> holds_at(
            indent + text,
            indent.len() as int + at,
            "@generated"@,
        ),
{
    lemma_indented_part(text, indent, start, "@generated"@);
    lemma_indented_part(text, indent, start, "//"@);
    lemma_indented_part(text, indent, start, "#"@);
    lemma_indented_part(text, indent, start, "/*"@);
    lemma_indented_part(text, indent, start, "*"@);
    lemma_indented_part(text, indent, start, "<!--"@);
    lemma_indented_part(text, indent, start, "--"@);
    lemma_indented_part(text, indent, start, ";"@);
    lemma_indented_part(text, indent, at, "@generated"@);
}

proof fn lemma_indented_part(text: Seq<char>, indent: Seq<char>, at: int, part: Seq<char>)
    requires
        0 <= at,
    ensures
        holds_at(text, at, part) <==> holds_at(indent + text, indent.len() as int + at, part),
{
    let width = indent.len() as int;
    if at + part.len() <= text.len() {
        assert((indent + text).subrange(width + at, width + at + part.len()) =~= text.subrange(
            at,
            at + part.len(),
        ));
    }
}

/// Conventional marker search is case-sensitive and needs a comment line.
fn is_generated_marker_line(line: &str) -> (result: bool)
    ensures
        result == is_marker_line(line@),
{
    let text = chars_of(line);
    let mut start: usize = 0;
    while start < text.len() && white(text[start])
        invariant
            text@ == line@,
            start <= text@.len(),
            forall|k: int| 0 <= k < start ==> is_white(#[trigger] text@[k]),
        decreases text@.len() - start,
    {
        start += 1;
    }
    proof {
        assert(is_trim_start(text@, start as int));
        assert forall|other: int| is_trim_start(text@, other) implies other == start by {
            if other < start {
                assert(is_white(text@[other]));
            }
            if other > start {
                assert(is_white(text@[start as int]));
            }
        }
    }
    let marker_line = part_at(&text, start, "@generated") || part_at(&text, start, "//")
        || part_at(&text, start, "#") || part_at(&text, start, "/*") || part_at(&text, start, "*")
        || part_at(&text, start, "<!--") || part_at(&text, start, "--") || part_at(
        &text,
        start,
        ";",
    );
    if !marker_line {
        return false;
    }
    let width: usize = 10;
    proof {
        reveal_strlit("@generated");
        assert("@generated"@.len() == width);
    }
    let mut at = start;
    while at < text.len()
        invariant
            text@ == line@,
            width == "@generated"@.len(),
            start <= at <= text@.len(),
            is_trim_start(text@, start as int),
            opens_marker_line(text@, start as int),
            forall|other: int|
                start <= other < at ==> !#[trigger] marker_at(text@, start as int, other),
        decreases text@.len() - at,
    {
        if part_at(&text, at, "@generated") {
            let bounded_before = at == start || !(is_alphanumeric(text[at - 1]) || text[at - 1]
                == '_');
            let end = at + width;
            let bounded_after = end >= text.len() || !(is_alphanumeric(text[end]) || text[end]
                == '_' || text[end] == '/' || text[end] == '-');
            if bounded_before && bounded_after {
                assert(marker_at(text@, start as int, at as int));
                return true;
            }
        }
        at += 1;
    }
    proof {
        assert forall|other_start: int, other: int|
            is_trim_start(line@, other_start) && opens_marker_line(
                line@,
                other_start,
            ) implies !#[trigger] marker_at(line@, other_start, other) by {
            assert(other_start == start);
            if other >= at {
                assert(!holds_at(text@, other, "@generated"@));
            }
        }
    }
    false
}

/// Some line near the head of the source declares it generated.
pub open spec fn declares_generated(source: Source) -> bool {
    exists|k: int|
        0 <= k < MARKER_LINES && k < source.line_seq().len() && #[trigger] line_declares(source, k)
}

/// The line of the source spells a marker line.
pub open spec fn line_declares(source: Source, row: int) -> bool {
    exists|text: Seq<char>| #[trigger]
        encode_utf8(text) == source.line_content(source.line_seq()[row]) && is_marker_line(text)
}

/// Nothing below the first twenty lines decides whether a source is generated, and one such line
/// among them is enough.
pub proof fn law_generated_marker_stands_at_the_head(source: Source, other: Source)
    requires
        source.line_seq().len() == other.line_seq().len() || (source.line_seq().len() >= 20
            && other.line_seq().len() >= 20),
        forall|k: int|
            0 <= k < 20 && k < source.line_seq().len() ==> source.line_content(
                #[trigger] source.line_seq()[k],
            ) == other.line_content(other.line_seq()[k]),
    ensures
        declares_generated(source) <==> declares_generated(other),
        forall|k: int|
            0 <= k < 20 && k < source.line_seq().len() && #[trigger] line_declares(source, k)
                ==> declares_generated(source),
{
    assert forall|k: int| 0 <= k < 20 && k < source.line_seq().len() implies line_declares(
        source,
        k,
    ) == line_declares(other, k) by {
        assert(source.line_content(source.line_seq()[k]) == other.line_content(
            other.line_seq()[k],
        ));
    }
    if declares_generated(source) {
        let k = choose|k: int|
            0 <= k < MARKER_LINES && k < source.line_seq().len() && #[trigger] line_declares(
                source,
                k,
            );
        assert(line_declares(other, k));
    }
    if declares_generated(other) {
        let k = choose|k: int|
            0 <= k < MARKER_LINES && k < other.line_seq().len() && #[trigger] line_declares(
                other,
                k,
            );
        assert(line_declares(source, k));
    }
}

/// Conventional marker search is deliberately header-bounded.
pub fn has_generated_marker(source: &Source) -> (result: bool)
    requires
        source.wf(),
    ensures
        result == declares_generated(*source),
{
    let mut row: usize = 0;
    while row < source.line_count() && row < MARKER_LINES
        invariant
            source.wf(),
            row <= MARKER_LINES,
            row <= source.line_seq().len(),
            forall|k: int| 0 <= k < row ==> !#[trigger] line_declares(*source, k),
        decreases MARKER_LINES - row,
    {
        let line = source.lines()[row];
        proof {
            source.lemma_line_boundaries(row as int);
            assert(crate::source::is_line_of(source.data(), source.line_seq()[row as int]));
        }
        if let Some(text) = source.slice(line.content_bytes.start, line.content_bytes.end) {
            proof {
                assert forall|other: Seq<char>| #[trigger]
                    encode_utf8(other) == source.line_content(
                        source.line_seq()[row as int],
                    ) implies other == text@ by {
                    lemma_encode_injective(other, text@);
                }
            }
            if is_generated_marker_line(text) {
                assert(line_declares(*source, row as int));
                return true;
            }
        }
        row += 1;
    }
    false
}

/// The text as a source.
pub open spec fn is_source_of(source: Source, text: Seq<char>) -> bool {
    source.wf() && source.chars() == text && source.data() == encode_utf8(text)
}

/// Result of a review that succeeded.
pub open spec fn is_review(
    file: PresentedFile,
    path: Seq<char>,
    before: Source,
    after: Source,
) -> bool {
    &&& file.path@ == path
    &&& file.generated == (declares_generated(before) || declares_generated(after))
    &&& before.chars() == after.chars() ==> file.hunks@.len() == 0
    &&& before.chars() != after.chars() ==> shows_review(path, before, after, file.hunks@)
    &&& hunks_ok(before, after, file.hunks@)
}

/// The trees of the path's language for two sources; either may declare them generated.
pub open spec fn is_review_pair(
    path: Seq<char>,
    before: Source,
    after: Source,
    pair: Result<SyntaxPair, FrontendError>,
) -> bool {
    is_pair_of(
        path,
        before.chars(),
        after.chars(),
        declares_generated(before) || declares_generated(after),
        pair,
    )
}

/// The graph matches the two trees.
pub open spec fn is_correspondence(pair: SyntaxPair, graph: Correspondence) -> bool {
    &&& graph.wf(pair)
    &&& has_matching(pair, graph.tree)
    &&& is_row_projection(pair, graph.tree, graph.source)
}

/// The hunks present a review of the trees: nothing that a correspondence of their syntax leaves
/// unmatched is hidden.
pub open spec fn shows_pair(pair: SyntaxPair, hunks: Seq<ReviewHunk>) -> bool {
    exists|graph: Correspondence, planned: Seq<RefinedHunk>|
        is_correspondence(pair, graph) && #[trigger] hunks_review(pair, graph, planned)
            && hunks_shown(pair.before, pair.after, planned, hunks)
}

/// The hunks present a review of the two sources as their path is parsed.
pub open spec fn shows_review(
    path: Seq<char>,
    before: Source,
    after: Source,
    hunks: Seq<ReviewHunk>,
) -> bool {
    exists|pair: SyntaxPair|
        pair.wf() && pair.before.source == before && pair.after.source == after && is_review_pair(
            path,
            before,
            after,
            Ok(pair),
        ) && #[trigger] shows_pair(pair, hunks)
}

/// More lines than the limit.
pub open spec fn is_too_long(source: Source) -> bool {
    source.line_seq().len() > MAX_REVISION_LINES
}

/// Match, plan and present two parsed revisions.
fn review_pair(pair: &SyntaxPair) -> (hunks: Vec<ReviewHunk>)
    requires
        pair.wf(),
        pair.before.source.data() != pair.after.source.data(),
    ensures
        shows_pair(*pair, hunks@),
        hunks_ok(pair.before.source, pair.after.source, hunks@),
{
    let graph = correspond(pair);
    let planned = plan_hunks(pair, &graph);
    proof {
        assert forall|h: int| 0 <= h < planned@.len() implies crate::review::changes_fit(
            (#[trigger] planned@[h]).changes@,
            pair.before.source.line_seq().len() as int,
            pair.after.source.line_seq().len() as int,
        ) by {
            assert(crate::plan::hunk_ok(
                planned@[h],
                pair.before.source.line_seq().len() as int,
                pair.after.source.line_seq().len() as int,
            ));
        }
    }
    let hunks = present_hunks(&pair.before, &pair.after, &planned);
    assert(is_correspondence(*pair, graph));
    assert(hunks_review(*pair, graph, planned@));
    hunks
}

/// Parse, match, plan, and present one pair of source revisions.
///
/// Equal texts give no hunks. Texts that differ are refused exactly where one has too many lines;
/// generated files and files of unknown languages are otherwise always reviewed. Whether a parser
/// can be set up for a known language is not promised.
pub fn diff_file(path: &str, before: &str, after: &str) -> (result: Result<
    PresentedFile,
    DiffError,
>)
    requires
        encode_utf8(before@).len() + 1 < usize::MAX,
        encode_utf8(after@).len() + 1 < usize::MAX,
    ensures
        exists|old_source: Source, new_source: Source|
            #![trigger is_source_of(old_source, before@), is_source_of(new_source, after@)]
            is_source_of(old_source, before@) && is_source_of(new_source, after@) && diff_result(
                path@,
                old_source,
                new_source,
                result,
            ),
{
    let old_source = Source::new(before);
    let new_source = Source::new(after);
    let generated = has_generated_marker(&old_source) || has_generated_marker(&new_source);
    assert(is_source_of(old_source, before@) && is_source_of(new_source, after@));
    if same_str(before, after) {
        let hunks: Vec<ReviewHunk> = Vec::new();
        return Ok(PresentedFile { path: path.to_owned(), generated, hunks });
    }
    if old_source.line_count() > MAX_REVISION_LINES || new_source.line_count()
        > MAX_REVISION_LINES {
        return Err(DiffError::TooManyLines);
    }
    match syntax_pair(path, before, after, generated) {
        Err(error) => Err(DiffError::Frontend(error)),
        Ok(pair) => {
            proof {
                lemma_encode_injective(before@, after@);
                pair.before.source.lemma_encoding();
                pair.after.source.lemma_encoding();
                lemma_same_declaration(old_source, pair.before.source);
                lemma_same_declaration(new_source, pair.after.source);
            }
            let hunks = review_pair(&pair);
            assert(is_source_of(pair.before.source, before@) && is_source_of(
                pair.after.source,
                after@,
            ));
            proof {
                assert(is_review_pair(
                    path@,
                    pair.before.source,
                    pair.after.source,
                    Ok::<SyntaxPair, FrontendError>(pair),
                ));
                assert(shows_pair(pair, hunks@));
            }
            Ok(PresentedFile { path: path.to_owned(), generated, hunks })
        },
    }
}

/// Sources of one text declare the same and have the same lines.
proof fn lemma_same_declaration(left: Source, right: Source)
    requires
        left.wf(),
        right.wf(),
        left.data() == right.data(),
    ensures
        left.line_seq() == right.line_seq(),
        declares_generated(left) == declares_generated(right),
{
    left.lemma_same_lines(&right);
    assert forall|row: int| line_declares(left, row) == line_declares(right, row) by {
        assert(left.line_content(left.line_seq()[row]) == right.line_content(
            right.line_seq()[row],
        ));
    }
    if declares_generated(left) {
        let k = choose|k: int|
            0 <= k < MARKER_LINES && k < left.line_seq().len() && #[trigger] line_declares(left, k);
        assert(line_declares(right, k));
    }
    if declares_generated(right) {
        let k = choose|k: int|
            0 <= k < MARKER_LINES && k < right.line_seq().len() && #[trigger] line_declares(
                right,
                k,
            );
        assert(line_declares(left, k));
    }
}

/// What a review of two sources may answer.
pub open spec fn diff_result(
    path: Seq<char>,
    before: Source,
    after: Source,
    result: Result<PresentedFile, DiffError>,
) -> bool {
    let generated = declares_generated(before) || declares_generated(after);
    let differ = before.chars() != after.chars();
    &&& result matches Ok(file) ==> is_review(file, path, before, after)
    &&& result == Err::<PresentedFile, DiffError>(DiffError::TooManyLines) <==> differ && (
    is_too_long(before) || is_too_long(after))
    &&& result matches Err(DiffError::Frontend(error)) ==> is_review_pair(
        path,
        before,
        after,
        Err::<SyntaxPair, FrontendError>(error),
    )
    &&& !differ ==> result is Ok
    &&& !is_too_long(before) && !is_too_long(after) && (generated || path_language(path) is None)
        ==> result is Ok
}

} // verus!

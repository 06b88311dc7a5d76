//! Language frontends: parse both revisions with one grammar, or fall both back to lines.

pub mod adapter;
pub mod c;
pub mod css;
pub mod html;
pub mod line;
pub mod project;
pub mod raw;
pub mod rust;
pub mod typescript;

use crate::frontend::line::is_line_tree;
use crate::frontend::project::{is_projected, project_language};
use crate::grammar::ParseFailure;
use crate::source::Source;
use crate::syntax::{FallbackReason, Language, ParseSide, ProjectionHealth, SyntaxPair, SyntaxTree};
use crate::text::{equal_ignoring_ascii_case, law_case_is_ignored, same_ignoring_ascii_case};
use vstd::prelude::*;
use vstd::utf8::*;

verus! {

/// A grammar or query that could not be set up.
#[derive(Clone, Copy, Debug, PartialEq, Eq, Structural)]
pub enum FrontendError {
    /// Setup failed on the before source.
    Before,
    /// Setup failed on the after source.
    After,
}

/// What `Path::extension` finds in a path.
pub uninterp spec fn extension_of(path: Seq<char>) -> Option<Seq<char>>;

/// `std::path::Path::extension`: the part of the file name after its last dot.
#[verifier::external_body]
fn path_extension(path: &str) -> (extension: Option<&str>)
    ensures
        match extension {
            Some(extension) => extension_of(path@) == Some(extension@),
            None => extension_of(path@) is None,
        },
{
    std::path::Path::new(path).extension().and_then(|extension| extension.to_str())
}

/// The extension is the word, whatever the case of its letters.
pub open spec fn names(extension: Seq<char>, word: Seq<char>) -> bool {
    equal_ignoring_ascii_case(encode_utf8(extension), encode_utf8(word))
}

/// Grammar for a file extension.
pub open spec fn extension_language(extension: Seq<char>) -> Option<Language> {
    if names(extension, "rs"@) {
        Some(Language::Rust)
    } else if names(extension, "html"@) || names(extension, "htm"@) {
        Some(Language::Html)
    } else if names(extension, "css"@) {
        Some(Language::Css)
    } else if names(extension, "ts"@) || names(extension, "mts"@) || names(extension, "cts"@) {
        Some(Language::TypeScript)
    } else if names(extension, "tsx"@) {
        Some(Language::Tsx)
    } else if names(extension, "js"@) || names(extension, "mjs"@) || names(extension, "cjs"@) {
        Some(Language::JavaScript)
    } else if names(extension, "jsx"@) {
        Some(Language::Jsx)
    } else if names(extension, "c"@) || names(extension, "h"@) {
        Some(Language::C)
    } else {
        None
    }
}

/// Each language comes from its own extensions, whatever the case of their letters, and an
/// extension that is none of these has no language.
pub proof fn law_languages_are_told_by_extension(extension: Seq<char>, other: Seq<char>)
    ensures
        extension_language(extension) == Some(Language::Rust) ==> names(extension, "rs"@),
        extension_language(extension) == Some(Language::Html) ==> names(extension, "html"@)
            || names(extension, "htm"@),
        extension_language(extension) == Some(Language::Css) ==> names(extension, "css"@),
        extension_language(extension) == Some(Language::TypeScript) ==> names(extension, "ts"@)
            || names(extension, "mts"@) || names(extension, "cts"@),
        extension_language(extension) == Some(Language::Tsx) ==> names(extension, "tsx"@),
        extension_language(extension) == Some(Language::JavaScript) ==> names(extension, "js"@)
            || names(extension, "mjs"@) || names(extension, "cjs"@),
        extension_language(extension) == Some(Language::Jsx) ==> names(extension, "jsx"@),
        extension_language(extension) == Some(Language::C) ==> names(extension, "c"@) || names(
            extension,
            "h"@,
        ),
        extension_language(extension) != Some(Language::Lines),
        extension_language(extension) is None <==> !names(extension, "rs"@) && !names(
            extension,
            "html"@,
        ) && !names(extension, "htm"@) && !names(extension, "css"@) && !names(extension, "ts"@)
            && !names(extension, "mts"@) && !names(extension, "cts"@) && !names(extension, "tsx"@)
            && !names(extension, "js"@) && !names(extension, "mjs"@) && !names(extension, "cjs"@)
            && !names(extension, "jsx"@) && !names(extension, "c"@) && !names(extension, "h"@),
        names(extension, other) ==> extension_language(extension) == extension_language(other),
{
    if names(extension, other) {
        lemma_names_alike(extension, other, "rs"@);
        lemma_names_alike(extension, other, "html"@);
        lemma_names_alike(extension, other, "htm"@);
        lemma_names_alike(extension, other, "css"@);
        lemma_names_alike(extension, other, "ts"@);
        lemma_names_alike(extension, other, "mts"@);
        lemma_names_alike(extension, other, "cts"@);
        lemma_names_alike(extension, other, "tsx"@);
        lemma_names_alike(extension, other, "js"@);
        lemma_names_alike(extension, other, "mjs"@);
        lemma_names_alike(extension, other, "cjs"@);
        lemma_names_alike(extension, other, "jsx"@);
        lemma_names_alike(extension, other, "c"@);
        lemma_names_alike(extension, other, "h"@);
    }
}

/// Extensions that differ in case name the same words.
proof fn lemma_names_alike(extension: Seq<char>, other: Seq<char>, word: Seq<char>)
    requires
        names(extension, other),
    ensures
        names(extension, word) <==> names(other, word),
{
    law_case_is_ignored(encode_utf8(extension), encode_utf8(other), encode_utf8(word));
    law_case_is_ignored(encode_utf8(other), encode_utf8(extension), encode_utf8(word));
}

/// Grammar for a file extension.
pub fn language_for_extension(extension: &str) -> (language: Option<Language>)
    ensures
        language == extension_language(extension@),
        language matches Some(language) ==> language != Language::Lines,
{
    if same_ignoring_ascii_case(extension, "rs") {
        Some(Language::Rust)
    } else if same_ignoring_ascii_case(extension, "html") || same_ignoring_ascii_case(
        extension,
        "htm",
    ) {
        Some(Language::Html)
    } else if same_ignoring_ascii_case(extension, "css") {
        Some(Language::Css)
    } else if same_ignoring_ascii_case(extension, "ts") || same_ignoring_ascii_case(
        extension,
        "mts",
    ) || same_ignoring_ascii_case(extension, "cts") {
        Some(Language::TypeScript)
    } else if same_ignoring_ascii_case(extension, "tsx") {
        Some(Language::Tsx)
    } else if same_ignoring_ascii_case(extension, "js") || same_ignoring_ascii_case(
        extension,
        "mjs",
    ) || same_ignoring_ascii_case(extension, "cjs") {
        Some(Language::JavaScript)
    } else if same_ignoring_ascii_case(extension, "jsx") {
        Some(Language::Jsx)
    } else if same_ignoring_ascii_case(extension, "c") || same_ignoring_ascii_case(
        extension,
        "h",
    ) {
        Some(Language::C)
    } else {
        None
    }
}

/// Grammar for a path.
pub open spec fn path_language(path: Seq<char>) -> Option<Language> {
    match extension_of(path) {
        Some(extension) => extension_language(extension),
        None => None,
    }
}

/// Grammar for a path, by its extension.
pub fn language_for_path(path: &str) -> (language: Option<Language>)
    ensures
        language == path_language(path@),
        language matches Some(language) ==> language != Language::Lines,
{
    match path_extension(path) {
        Some(extension) => language_for_extension(extension),
        None => None,
    }
}

/// Both revisions as exact line trees with the same reason.
pub open spec fn is_line_pair(pair: SyntaxPair, reason: FallbackReason) -> bool {
    &&& is_line_tree(pair.before)
    &&& is_line_tree(pair.after)
    &&& pair.before.health == ProjectionHealth::Fallback(reason)
    &&& pair.after.health == ProjectionHealth::Fallback(reason)
}

/// Lay both revisions out as exact line trees after a syntax certificate fails.
pub fn line_pair(before: Source, after: Source, reason: FallbackReason) -> (pair: SyntaxPair)
    requires
        before.wf(),
        after.wf(),
    ensures
        pair.wf(),
        pair.before.source == before,
        pair.after.source == after,
        is_line_pair(pair, reason),
{
    SyntaxPair { before: line::project(before, reason), after: line::project(after, reason) }
}

/// Reason for falling both revisions back: the node budget outranks grammar errors.
pub open spec fn failure_reason(
    reason: ParseFailure,
    other: Option<ParseFailure>,
    side: ParseSide,
) -> FallbackReason {
    if reason == ParseFailure::Complexity || other == Some(ParseFailure::Complexity) {
        FallbackReason::SyntaxComplexity(side)
    } else {
        FallbackReason::ParseError(side)
    }
}

/// Two failures are told alike in either order, on the side that they came from; a node budget that
/// ran out in one revision is told before a grammar error in the other.
pub proof fn law_failures_are_told_alike(first: ParseFailure, second: ParseFailure, side: ParseSide)
    ensures
        failure_reason(first, Some(second), side) == failure_reason(second, Some(first), side),
        failure_reason(first, Some(first), side) == failure_reason(first, None, side),
        failure_reason(ParseFailure::Complexity, Some(second), side)
            == FallbackReason::SyntaxComplexity(side),
        first != ParseFailure::Complexity ==> failure_reason(first, None, side)
            == FallbackReason::ParseError(side),
{
}

/// Reason for falling both revisions back.
pub fn fallback_reason(reason: ParseFailure, other: Option<ParseFailure>, side: ParseSide) -> (result:
    FallbackReason)
    ensures
        result == failure_reason(reason, other, side),
{
    let other_complex = match other {
        Some(other) => other == ParseFailure::Complexity,
        None => false,
    };
    if reason == ParseFailure::Complexity || other_complex {
        FallbackReason::SyntaxComplexity(side)
    } else {
        FallbackReason::ParseError(side)
    }
}

/// Combine two parse results: both trees, or both revisions as lines if either failed.
pub open spec fn combined(
    pair: SyntaxPair,
    before: Result<SyntaxTree, ParseFailure>,
    after: Result<SyntaxTree, ParseFailure>,
) -> bool {
    match (before, after) {
        (Ok(before), Ok(after)) => pair.before == before && pair.after == after,
        (Err(failure), Ok(_)) => is_line_pair(
            pair,
            failure_reason(failure, None, ParseSide::Before),
        ),
        (Ok(_), Err(failure)) => is_line_pair(
            pair,
            failure_reason(failure, None, ParseSide::After),
        ),
        (Err(first), Err(second)) => is_line_pair(
            pair,
            failure_reason(first, Some(second), ParseSide::Both),
        ),
    }
}

/// Combine two parse results of one language.
///
/// A setup failure is an error; any other failure falls both revisions back to lines.
pub fn combine(
    before_source: Source,
    after_source: Source,
    before: Result<SyntaxTree, ParseFailure>,
    after: Result<SyntaxTree, ParseFailure>,
) -> (pair: Result<SyntaxPair, FrontendError>)
    requires
        before_source.wf(),
        after_source.wf(),
        before matches Ok(tree) ==> tree.wf() && tree.source.chars() == before_source.chars(),
        after matches Ok(tree) ==> tree.wf() && tree.source.chars() == after_source.chars(),
        before is Ok && after is Ok ==> before->Ok_0.language == after->Ok_0.language,
    ensures
        pair == Err::<SyntaxPair, FrontendError>(FrontendError::Before) <==> before
            == Err::<SyntaxTree, ParseFailure>(ParseFailure::Setup),
        pair == Err::<SyntaxPair, FrontendError>(FrontendError::After) <==> before
            != Err::<SyntaxTree, ParseFailure>(ParseFailure::Setup) && after
            == Err::<SyntaxTree, ParseFailure>(ParseFailure::Setup),
        pair matches Ok(pair) ==> pair.wf() && combined(pair, before, after)
            && pair.before.source.chars() == before_source.chars() && pair.after.source.chars()
            == after_source.chars(),
{
    match before {
        Err(ParseFailure::Setup) => {
            return Err(FrontendError::Before);
        },
        _ => {},
    }
    match after {
        Err(ParseFailure::Setup) => {
            return Err(FrontendError::After);
        },
        _ => {},
    }
    match before {
        Ok(before_tree) => match after {
            Ok(after_tree) => Ok(SyntaxPair { before: before_tree, after: after_tree }),
            Err(reason) => {
                let reason = fallback_reason(reason, None, ParseSide::After);
                let pair = line_pair(before_source, after_source, reason);
                Ok(pair)
            },
        },
        Err(first) => match after {
            Ok(_) => {
                let reason = fallback_reason(first, None, ParseSide::Before);
                let pair = line_pair(before_source, after_source, reason);
                Ok(pair)
            },
            Err(second) => {
                let reason = fallback_reason(first, Some(second), ParseSide::Both);
                let pair = line_pair(before_source, after_source, reason);
                Ok(pair)
            },
        },
    }
}

/// What the parses of two revisions come to together.
pub open spec fn is_parsed_pair(
    language: Language,
    before: Source,
    after: Source,
    pair: Result<SyntaxPair, FrontendError>,
) -> bool {
    exists|left: Result<SyntaxTree, ParseFailure>, right: Result<SyntaxTree, ParseFailure>|
        #[trigger] is_projected(language, before, left) && #[trigger] is_projected(
            language,
            after,
            right,
        ) && match pair {
            Ok(pair) => combined(pair, left, right),
            Err(FrontendError::Before) => left == Err::<SyntaxTree, ParseFailure>(
                ParseFailure::Setup,
            ),
            Err(FrontendError::After) => left != Err::<SyntaxTree, ParseFailure>(
                ParseFailure::Setup,
            ) && right == Err::<SyntaxTree, ParseFailure>(ParseFailure::Setup),
        }
}

/// The source holds the text.
pub open spec fn is_text(source: Source, text: Seq<char>) -> bool {
    source.wf() && source.chars() == text
}

/// Trees for two texts at a path: lines for generated files and unknown languages, else what the
/// parses of the two texts come to together.
pub open spec fn is_pair_of(
    path: Seq<char>,
    before: Seq<char>,
    after: Seq<char>,
    generated: bool,
    pair: Result<SyntaxPair, FrontendError>,
) -> bool {
    if generated {
        pair is Ok && is_line_pair(pair->Ok_0, FallbackReason::Generated)
    } else {
        match path_language(path) {
            None => pair is Ok && is_line_pair(pair->Ok_0, FallbackReason::Unsupported),
            Some(language) => exists|old_source: Source, new_source: Source|
                #![trigger is_text(old_source, before), is_text(new_source, after)]
                is_text(old_source, before) && is_text(new_source, after) && is_parsed_pair(
                    language,
                    old_source,
                    new_source,
                    pair,
                ),
        }
    }
}

/// Parse both revisions with one grammar, falling both back if either parse is unsafe.
pub fn syntax_pair(path: &str, before: &str, after: &str, generated: bool) -> (pair: Result<
    SyntaxPair,
    FrontendError,
>)
    requires
        encode_utf8(before@).len() + 1 < usize::MAX,
        encode_utf8(after@).len() + 1 < usize::MAX,
    ensures
        pair matches Ok(pair) ==> pair.wf() && pair.before.source.chars() == before@
            && pair.after.source.chars() == after@,
        is_pair_of(path@, before@, after@, generated, pair),
{
    let before_source = Source::new(before);
    let after_source = Source::new(after);
    if generated {
        return Ok(line_pair(before_source, after_source, FallbackReason::Generated));
    }
    let language = match language_for_path(path) {
        None => {
            return Ok(line_pair(before_source, after_source, FallbackReason::Unsupported));
        },
        Some(language) => language,
    };
    let old_source = Source::new(before);
    let new_source = Source::new(after);
    let ghost old_text = old_source;
    let ghost new_text = new_source;
    let before_tree = project_language(language, old_source);
    let after_tree = project_language(language, new_source);
    let ghost left = before_tree;
    let ghost right = after_tree;
    let pair = combine(before_source, after_source, before_tree, after_tree);
    proof {
        assert(is_projected(language, old_text, left) && is_projected(language, new_text, right));
        assert(is_text(old_text, before@) && is_text(new_text, after@));
        assert(is_parsed_pair(language, old_text, new_text, pair));
    }
    pair
}

} // verus!

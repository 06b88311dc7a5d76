//! CSS statements, selectors, and significant white space.

use crate::frontend::adapter::{
    blank_channel, commentary, gap_is_blank, is_blank_range, owner, plain, unit_if, unit_when,
    DecorationHint, NodeAnnotation,
};
use crate::frontend::raw::RawTree;
use crate::frontend::rust::span_of;
use crate::source::Source;
use crate::span::Span;
use crate::syntax::{ContentChannel, LayoutOwnership, ReviewMode};
use crate::text::same_str;
use vstd::prelude::*;

verus! {

/// Statements that bring in other files or settings.
pub open spec fn is_wiring_kind(kind: Seq<char>) -> bool {
    kind == "import_statement"@ || kind == "charset_statement"@ || kind == "namespace_statement"@
}

fn is_wiring(kind: &str) -> (result: bool)
    ensures
        result == is_wiring_kind(kind@),
{
    same_str(kind, "import_statement") || same_str(kind, "charset_statement") || same_str(
        kind,
        "namespace_statement",
    )
}

/// Statements that group other statements under a header.
pub open spec fn is_group_kind(kind: Seq<char>) -> bool {
    kind == "media_statement"@ || kind == "supports_statement"@ || kind == "scope_statement"@ || kind
        == "at_rule"@
}

fn is_group(kind: &str) -> (result: bool)
    ensures
        result == is_group_kind(kind@),
{
    same_str(kind, "media_statement") || same_str(kind, "supports_statement") || same_str(
        kind,
        "scope_statement",
    ) || same_str(kind, "at_rule")
}

/// First named node at or past `at` on the sibling chain.
pub open spec fn named_from(raw: RawTree, at: int, end: int) -> Option<int>
    decreases raw.ends@.len() - at,
{
    if at < 0 || at >= end || at >= raw.ends@.len() || !(at < raw.ends@[at] <= raw.ends@.len()) {
        None
    } else if raw.at(at).named {
        Some(at)
    } else {
        named_from(raw, raw.ends@[at] as int, end)
    }
}

fn first_named(raw: &RawTree, index: usize) -> (child: Option<usize>)
    requires
        raw.wf(),
        index < raw.entries@.len(),
    ensures
        match child {
            Some(found) => named_from(*raw, index + 1, raw.ends@[index as int] as int) == Some(
                found as int,
            ) && found < raw.entries@.len(),
            None => named_from(*raw, index + 1, raw.ends@[index as int] as int) is None,
        },
{
    let end = raw.ends[index];
    let mut at: usize = index + 1;
    while at < end
        invariant
            raw.wf(),
            index < raw.entries@.len(),
            end == raw.ends@[index as int],
            at <= raw.entries@.len(),
            named_from(*raw, index + 1, end as int) == named_from(*raw, at as int, end as int),
        decreases raw.entries@.len() - at,
    {
        if raw.entries[at].node.named {
            return Some(at);
        }
        at = raw.ends[at];
    }
    None
}

pub open spec fn is_blank_byte(byte: u8) -> bool {
    9 <= byte <= 13 || byte == 32
}

/// End of the text before `end` without its trailing white space.
pub open spec fn trimmed_end(data: Seq<u8>, start: int, end: int) -> int
    decreases end,
{
    if end <= start || end <= 0 || end > data.len() || !is_blank_byte(data[end - 1]) {
        end
    } else {
        trimmed_end(data, start, end - 1)
    }
}

fn trim_end(source: &Source, start: usize, end: usize) -> (trimmed: usize)
    ensures
        trimmed == trimmed_end(source.data(), start as int, end as int),
{
    let bytes = source.as_bytes();
    let mut at: usize = end;
    while at > start && at <= bytes.len() && ((9 <= bytes[at - 1] && bytes[at - 1] <= 13)
        || bytes[at - 1] == 32)
        invariant
            bytes@ == source.data(),
            at <= end,
            trimmed_end(source.data(), start as int, end as int) == trimmed_end(
                source.data(),
                start as int,
                at as int,
            ),
        decreases at,
    {
        at -= 1;
    }
    at
}

/// Text of a grouping statement before its block.
pub open spec fn header_of(raw: RawTree, index: int, data: Seq<u8>) -> Option<Span> {
    match raw.kind_from(index + 1, raw.ends@[index] as int, "block"@, "block"@) {
        Some(block) => Some(
            Span {
                start: raw.at(index).start,
                end: trimmed_end(
                    data,
                    raw.at(index).start as int,
                    raw.at(block).start as int,
                ) as usize,
            },
        ),
        None => None,
    }
}

fn header(raw: &RawTree, index: usize, source: &Source) -> (span: Option<Span>)
    requires
        raw.wf(),
        index < raw.entries@.len(),
    ensures
        span == header_of(*raw, index as int, source.data()),
{
    match raw.named_child_of_kind(index, "block", "block") {
        Some(block) => {
            let start = raw.bytes(index).start;
            let end = trim_end(source, start, raw.bytes(block).start);
            Some(Span { start, end })
        },
        None => None,
    }
}

/// A child of the given kind.
pub open spec fn child_span(raw: RawTree, index: int, kind: Seq<char>) -> Option<Span> {
    span_of(raw, raw.kind_from(index + 1, raw.ends@[index] as int, kind, kind))
}

/// What CSS makes of one parser node.
pub open spec fn annotation(
    raw: RawTree,
    index: int,
    parent_kind: Option<&str>,
    data: Seq<u8>,
) -> NodeAnnotation {
    let kind = raw.at(index).kind@;
    let top = parent_kind matches Some(parent) && parent@ == "stylesheet"@;
    if kind == "stylesheet"@ {
        owner(None, None, DecorationHint::Nothing)
    } else if kind == "comment"@ || kind == "js_comment"@ {
        commentary(
            unit_if(top, ReviewMode::Linewise, LayoutOwnership::Nothing),
            DecorationHint::Nothing,
        )
    } else if is_wiring_kind(kind) {
        owner(
            unit_if(top, ReviewMode::Compact, LayoutOwnership::Nothing),
            span_of(raw, named_from(raw, index + 1, raw.ends@[index] as int)),
            DecorationHint::Nothing,
        )
    } else if kind == "rule_set"@ {
        owner(
            unit_if(top, ReviewMode::StructureAware, LayoutOwnership::AdjacentBlankLines),
            child_span(raw, index, "selectors"@),
            DecorationHint::Nothing,
        )
    } else if kind == "keyframes_statement"@ {
        owner(
            unit_if(top, ReviewMode::StructureAware, LayoutOwnership::AdjacentBlankLines),
            child_span(raw, index, "keyframes_name"@),
            DecorationHint::Nothing,
        )
    } else if is_group_kind(kind) {
        owner(
            unit_if(top, ReviewMode::StructureAware, LayoutOwnership::AdjacentBlankLines),
            header_of(raw, index, data),
            DecorationHint::Nothing,
        )
    } else if top && raw.at(index).named {
        owner(
            unit_if(true, ReviewMode::Linewise, LayoutOwnership::AdjacentBlankLines),
            None,
            DecorationHint::Nothing,
        )
    } else if kind == "declaration"@ {
        owner(None, child_span(raw, index, "property_name"@), DecorationHint::Nothing)
    } else {
        plain()
    }
}

/// What CSS makes of one parser node.
pub fn annotate(
    raw: &RawTree,
    index: usize,
    parent_kind: Option<&'static str>,
    source: &Source,
) -> (result: NodeAnnotation)
    requires
        raw.wf(),
        index < raw.entries@.len(),
    ensures
        result == annotation(*raw, index as int, parent_kind, source.data()),
{
    let kind = raw.kind(index);
    let top = match parent_kind {
        Some(parent) => same_str(parent, "stylesheet"),
        None => false,
    };
    if same_str(kind, "stylesheet") {
        return NodeAnnotation::owner(None, None, DecorationHint::Nothing);
    }
    if same_str(kind, "comment") || same_str(kind, "js_comment") {
        return NodeAnnotation::commentary(
            unit_when(top, ReviewMode::Linewise, LayoutOwnership::Nothing),
            DecorationHint::Nothing,
        );
    }
    if is_wiring(kind) {
        return NodeAnnotation::owner(
            unit_when(top, ReviewMode::Compact, LayoutOwnership::Nothing),
            raw.optional_bytes(first_named(raw, index)),
            DecorationHint::Nothing,
        );
    }
    let unit = unit_when(top, ReviewMode::StructureAware, LayoutOwnership::AdjacentBlankLines);
    if same_str(kind, "rule_set") {
        let selectors = raw.named_child_of_kind(index, "selectors", "selectors");
        return NodeAnnotation::owner(
            unit,
            raw.optional_bytes(selectors),
            DecorationHint::Nothing,
        );
    }
    if same_str(kind, "keyframes_statement") {
        let name = raw.named_child_of_kind(index, "keyframes_name", "keyframes_name");
        return NodeAnnotation::owner(unit, raw.optional_bytes(name), DecorationHint::Nothing);
    }
    if is_group(kind) {
        return NodeAnnotation::owner(unit, header(raw, index, source), DecorationHint::Nothing);
    }
    if top && raw.entries[index].node.named {
        return NodeAnnotation::owner(
            unit_when(true, ReviewMode::Linewise, LayoutOwnership::AdjacentBlankLines),
            None,
            DecorationHint::Nothing,
        );
    }
    if same_str(kind, "declaration") {
        let name = raw.named_child_of_kind(index, "property_name", "property_name");
        return NodeAnnotation::owner(None, raw.optional_bytes(name), DecorationHint::Nothing);
    }
    NodeAnnotation::plain()
}

/// White space that combines selectors or stands in a string.
pub open spec fn is_content_kind(kind: Seq<char>) -> bool {
    kind == "descendant_selector"@ || kind == "string_value"@ || kind == "string_content"@
}

/// Significant white space is content; elsewhere it is layout.
pub fn gap_channel(raw: &RawTree, parent: usize, source: &Source, bytes: Span) -> (channel:
    ContentChannel)
    requires
        parent < raw.entries@.len(),
    ensures
        channel == blank_channel(
            is_blank_range(source.data(), bytes),
            is_content_kind(raw.at(parent as int).kind@),
        ),
{
    if !gap_is_blank(source, bytes) {
        return ContentChannel::Syntax;
    }
    let kind = raw.kind(parent);
    if same_str(kind, "descendant_selector") || same_str(kind, "string_value") || same_str(
        kind,
        "string_content",
    ) {
        return ContentChannel::Syntax;
    }
    ContentChannel::Layout
}

} // verus!

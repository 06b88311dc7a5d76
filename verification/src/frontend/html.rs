//! HTML opaque elements, identities, and rendered white space.

use crate::frontend::adapter::{
    blank_channel, breaks_line, commentary, gap_breaks_line, gap_is_blank, is_blank_range, plain,
    DecorationHint, NodeAnnotation,
};
use crate::frontend::raw::RawTree;
use crate::frontend::rust::span_of;
use crate::grammar::{RawEntry, RawNode};
use crate::source::Source;
use crate::span::Span;
use crate::syntax::{
    ContentChannel, CorrespondenceRole, LayoutOwnership, ReviewMode, ReviewUnit,
};
use crate::text::{equal_ignoring_ascii_case, same_ignoring_ascii_case, same_str};
use vstd::prelude::*;
use vstd::utf8::*;

verus! {

pub open spec fn is_element_kind(kind: Seq<char>) -> bool {
    kind == "element"@ || kind == "script_element"@ || kind == "style_element"@
}

pub open spec fn is_tag_kind(kind: Seq<char>) -> bool {
    kind == "start_tag"@ || kind == "self_closing_tag"@
}

/// The tag name of a tag, or of the first tag of an element.
pub open spec fn tag_name_at(raw: RawTree, index: int) -> Option<int> {
    if is_tag_kind(raw.at(index).kind@) {
        raw.kind_from(index + 1, raw.ends@[index] as int, "tag_name"@, "tag_name"@)
    } else {
        match raw.kind_from(
            index + 1,
            raw.ends@[index] as int,
            "start_tag"@,
            "self_closing_tag"@,
        ) {
            Some(tag) => raw.kind_from(tag + 1, raw.ends@[tag] as int, "tag_name"@, "tag_name"@),
            None => None,
        }
    }
}

fn tag_name(raw: &RawTree, index: usize) -> (name: Option<usize>)
    requires
        raw.wf(),
        index < raw.entries@.len(),
    ensures
        match name {
            Some(found) => tag_name_at(*raw, index as int) == Some(found as int) && found
                < raw.entries@.len(),
            None => tag_name_at(*raw, index as int) is None,
        },
{
    if raw.is_kind(index, "start_tag") || raw.is_kind(index, "self_closing_tag") {
        return raw.named_child_of_kind(index, "tag_name", "tag_name");
    }
    match raw.named_child_of_kind(index, "start_tag", "self_closing_tag") {
        Some(tag) => raw.named_child_of_kind(tag, "tag_name", "tag_name"),
        None => None,
    }
}

/// The byte range spells the word, whatever the case of its letters.
pub open spec fn spells(data: Seq<u8>, bytes: Span, word: Seq<char>) -> bool {
    crate::frontend::adapter::on_boundaries(data, bytes) && equal_ignoring_ascii_case(
        data.subrange(bytes.start as int, bytes.end as int),
        encode_utf8(word),
    )
}

fn range_spells(source: &Source, bytes: Span, word: &str) -> (result: bool)
    ensures
        result == spells(source.data(), bytes, word@),
{
    match source.slice(bytes.start, bytes.end) {
        Some(text) => same_ignoring_ascii_case(text, word),
        None => false,
    }
}

/// Elements whose text is not markup.
pub open spec fn is_opaque_name(data: Seq<u8>, name: Span) -> bool {
    spells(data, name, "iframe"@) || spells(data, name, "listing"@) || spells(
        data,
        name,
        "noembed"@,
    ) || spells(data, name, "noframes"@) || spells(data, name, "noscript"@) || spells(
        data,
        name,
        "plaintext"@,
    ) || spells(data, name, "pre"@) || spells(data, name, "script"@) || spells(data, name, "style"@)
        || spells(data, name, "textarea"@) || spells(data, name, "title"@) || spells(
        data,
        name,
        "xmp"@,
    )
}

fn opaque_name(source: &Source, name: Span) -> (result: bool)
    ensures
        result == is_opaque_name(source.data(), name),
{
    range_spells(source, name, "iframe") || range_spells(source, name, "listing") || range_spells(
        source,
        name,
        "noembed",
    ) || range_spells(source, name, "noframes") || range_spells(source, name, "noscript")
        || range_spells(source, name, "plaintext") || range_spells(source, name, "pre")
        || range_spells(source, name, "script") || range_spells(source, name, "style")
        || range_spells(source, name, "textarea") || range_spells(source, name, "title")
        || range_spells(source, name, "xmp")
}

/// A byte of a tag name.
pub open spec fn is_name_byte(byte: u8) -> bool {
    0x30 <= byte <= 0x39 || 0x41 <= byte <= 0x5a || 0x61 <= byte <= 0x7a || byte == 0x2d
}

/// The parser skipped exactly one end tag that closes nothing and whose element is markup.
pub open spec fn is_stray_end_tag(node: RawNode, data: Seq<u8>) -> bool {
    &&& node.kind@ == "ERROR"@
    &&& node.start + 4 <= node.end <= data.len()
    &&& data[node.start as int] == 0x3c && data[node.start + 1] == 0x2f && data[node.end - 1] == 0x3e
    &&& forall|k: int| node.start + 2 <= k < node.end - 1 ==> is_name_byte(#[trigger] data[k])
    &&& !is_opaque_name(
        data,
        Span { start: (node.start + 2) as usize, end: (node.end - 1) as usize },
    )
}

fn stray_end_tag(node: RawNode, source: &Source) -> (result: bool)
    ensures
        result == is_stray_end_tag(node, source.data()),
{
    let bytes = source.as_bytes();
    if !same_str(node.kind, "ERROR") || node.end > bytes.len() || node.start > node.end || node.end
        - node.start < 4 {
        return false;
    }
    if bytes[node.start] != 0x3c || bytes[node.start + 1] != 0x2f || bytes[node.end - 1] != 0x3e {
        return false;
    }
    let mut at: usize = node.start + 2;
    while at < node.end - 1
        invariant
            bytes@ == source.data(),
            node.start + 4 <= node.end <= bytes@.len(),
            node.start + 2 <= at <= node.end - 1,
            forall|k: int| node.start + 2 <= k < at ==> is_name_byte(#[trigger] bytes@[k]),
        decreases node.end - at,
    {
        let byte = bytes[at];
        let fits = (0x30 <= byte && byte <= 0x39) || (0x41 <= byte && byte <= 0x5a) || (0x61 <= byte
            && byte <= 0x7a) || byte == 0x2d;
        if !fits {
            assert(!is_name_byte(source.data()[at as int]));
            return false;
        }
        at += 1;
    }
    !opaque_name(source, Span { start: node.start + 2, end: node.end - 1 })
}

/// Everything directly under the document parsed, except for stray end tags.
pub open spec fn is_recoverable(entries: Seq<RawEntry>, data: Seq<u8>) -> bool {
    forall|i: int|
        0 <= i < entries.len() && (#[trigger] entries[i]).depth == 1 ==> !entries[i].node.error
            && !entries[i].node.missing || is_stray_end_tag(entries[i].node, data)
}

/// Whether everything directly under the document parsed, except for stray end tags.
pub fn accepts_recovery(entries: &Vec<RawEntry>, source: &Source) -> (result: bool)
    ensures
        result == is_recoverable(entries@, source.data()),
{
    let mut index: usize = 0;
    while index < entries.len()
        invariant
            index <= entries@.len(),
            forall|i: int|
                0 <= i < index && (#[trigger] entries@[i]).depth == 1 ==> !entries@[i].node.error
                    && !entries@[i].node.missing || is_stray_end_tag(
                    entries@[i].node,
                    source.data(),
                ),
        decreases entries@.len() - index,
    {
        let entry = entries[index];
        if entry.depth == 1 && (entry.node.error || entry.node.missing) && !stray_end_tag(
            entry.node,
            source,
        ) {
            assert(entries@[index as int].depth == 1);
            return false;
        }
        index += 1;
    }
    true
}

pub open spec fn is_plaintext_at(raw: RawTree, index: int, data: Seq<u8>) -> bool {
    raw.at(index).kind@ == "element"@ && (tag_name_at(raw, index) matches Some(name) && spells(
        data,
        raw.bytes_of(name),
        "plaintext"@,
    ))
}

fn is_plaintext_element(raw: &RawTree, index: usize, source: &Source) -> (result: bool)
    requires
        raw.wf(),
        index < raw.entries@.len(),
    ensures
        result == is_plaintext_at(*raw, index as int, source.data()),
{
    if !raw.is_kind(index, "element") {
        return false;
    }
    match tag_name(raw, index) {
        Some(name) => range_spells(source, raw.bytes(name), "plaintext"),
        None => false,
    }
}

pub open spec fn is_opaque_at(raw: RawTree, index: int, data: Seq<u8>) -> bool {
    let kind = raw.at(index).kind@;
    ||| kind == "script_element"@
    ||| kind == "style_element"@
    ||| kind == "element"@ && (tag_name_at(raw, index) matches Some(name) && is_opaque_name(
        data,
        raw.bytes_of(name),
    ))
}

fn is_opaque_element(raw: &RawTree, index: usize, source: &Source) -> (result: bool)
    requires
        raw.wf(),
        index < raw.entries@.len(),
    ensures
        result == is_opaque_at(*raw, index as int, source.data()),
{
    if raw.is_kind(index, "script_element") || raw.is_kind(index, "style_element") {
        return true;
    }
    if !raw.is_kind(index, "element") {
        return false;
    }
    match tag_name(raw, index) {
        Some(name) => opaque_name(source, raw.bytes(name)),
        None => false,
    }
}

/// An element kept as one exact payload.
pub open spec fn opaque(identity: Option<Span>, extent: Option<Span>) -> NodeAnnotation {
    NodeAnnotation {
        channel: Some(ContentChannel::Opaque),
        descendant_channel: Some(ContentChannel::Opaque),
        identity,
        extent,
        prune_children: true,
        ..plain()
    }
}

/// What HTML makes of one parser node.
pub open spec fn annotation(raw: RawTree, index: int, data: Seq<u8>) -> NodeAnnotation {
    let kind = raw.at(index).kind@;
    let name = span_of(raw, tag_name_at(raw, index));
    if kind == "document"@ {
        NodeAnnotation {
            review: Some(
                ReviewUnit { mode: ReviewMode::StructureAware, layout: LayoutOwnership::Nothing },
            ),
            correspondence: CorrespondenceRole::HardOwner,
            ..plain()
        }
    } else if is_plaintext_at(raw, index, data) {
        opaque(name, Some(Span { start: raw.at(index).start, end: data.len() as usize }))
    } else if is_opaque_at(raw, index, data) {
        opaque(name, None)
    } else if is_element_kind(kind) {
        NodeAnnotation {
            identity: name,
            correspondence: CorrespondenceRole::LocalOwner,
            ..plain()
        }
    } else if is_tag_kind(kind) {
        NodeAnnotation { identity: name, ..plain() }
    } else if kind == "text"@ && is_blank_range(data, raw.bytes_of(index)) && breaks_line(
        data,
        raw.bytes_of(index),
    ) {
        NodeAnnotation { channel: Some(ContentChannel::Layout), ..plain() }
    } else if kind == "comment"@ {
        commentary(None, DecorationHint::Nothing)
    } else {
        plain()
    }
}

/// What HTML makes of one parser node.
pub fn annotate(raw: &RawTree, index: usize, source: &Source) -> (result: NodeAnnotation)
    requires
        raw.wf(),
        index < raw.entries@.len(),
    ensures
        result == annotation(*raw, index as int, source.data()),
{
    let kind = raw.kind(index);
    let mut result = NodeAnnotation::plain();
    if same_str(kind, "document") {
        result.review = Some(
            ReviewUnit { mode: ReviewMode::StructureAware, layout: LayoutOwnership::Nothing },
        );
        result.correspondence = CorrespondenceRole::HardOwner;
        return result;
    }
    if is_plaintext_element(raw, index, source) {
        result.channel = Some(ContentChannel::Opaque);
        result.descendant_channel = Some(ContentChannel::Opaque);
        result.identity = raw.optional_bytes(tag_name(raw, index));
        result.extent = Some(Span { start: raw.bytes(index).start, end: source.byte_len() });
        result.prune_children = true;
        return result;
    }
    if is_opaque_element(raw, index, source) {
        result.channel = Some(ContentChannel::Opaque);
        result.descendant_channel = Some(ContentChannel::Opaque);
        result.identity = raw.optional_bytes(tag_name(raw, index));
        result.prune_children = true;
        return result;
    }
    let element = same_str(kind, "element") || same_str(kind, "script_element") || same_str(
        kind,
        "style_element",
    );
    if element || same_str(kind, "start_tag") || same_str(kind, "self_closing_tag") {
        result.identity = raw.optional_bytes(tag_name(raw, index));
        if element {
            result.correspondence = CorrespondenceRole::LocalOwner;
        }
        return result;
    }
    if same_str(kind, "text") && gap_is_blank(source, raw.bytes(index)) && gap_breaks_line(
        source,
        raw.bytes(index),
    ) {
        result.channel = Some(ContentChannel::Layout);
        return result;
    }
    if same_str(kind, "comment") {
        return NodeAnnotation::commentary(None, DecorationHint::Nothing);
    }
    result
}

/// Places where white space is rendered or is a value: between elements on one line, and
/// inside attribute values.
pub open spec fn is_content_gap(kind: Seq<char>, breaks: bool) -> bool {
    ||| (kind == "document"@ || kind == "element"@) && !breaks
    ||| kind == "attribute_value"@
    ||| kind == "quoted_attribute_value"@
}

/// Rendered white space is content; elsewhere it is layout.
pub fn gap_channel(raw: &RawTree, parent: usize, source: &Source, bytes: Span) -> (channel:
    ContentChannel)
    requires
        parent < raw.entries@.len(),
    ensures
        channel == blank_channel(
            is_blank_range(source.data(), bytes),
            is_content_gap(raw.at(parent as int).kind@, breaks_line(source.data(), bytes)),
        ),
{
    if !gap_is_blank(source, bytes) {
        return ContentChannel::Syntax;
    }
    let kind = raw.kind(parent);
    if (same_str(kind, "document") || same_str(kind, "element")) && !gap_breaks_line(source, bytes) {
        return ContentChannel::Syntax;
    }
    if same_str(kind, "attribute_value") || same_str(kind, "quoted_attribute_value") {
        return ContentChannel::Syntax;
    }
    ContentChannel::Layout
}

} // verus!

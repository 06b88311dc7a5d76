//! Rust review boundaries, identities, and decorations.

use crate::frontend::adapter::{
    blank_channel, commentary, gap_is_blank, is_blank_range, owner, plain, unit_if, unit_when, DecorationHint, NodeAnnotation,
};
use crate::frontend::raw::RawTree;
use crate::source::Source;
use crate::span::Span;
use crate::syntax::{ContentChannel, CorrespondenceRole, LayoutOwnership, ReviewMode};
use crate::text::{bytes_at, occurs_at, same_str};
use vstd::prelude::*;
use vstd::utf8::*;

verus! {

/// Items that define something reviewable.
pub open spec fn is_definition_kind(kind: Seq<char>) -> bool {
    kind == "const_item"@ || kind == "enum_item"@ || kind == "extern_crate_declaration"@ || kind
        == "foreign_mod_item"@ || kind == "function_item"@ || kind == "impl_item"@ || kind
        == "macro_definition"@ || kind == "mod_item"@ || kind == "static_item"@ || kind
        == "struct_item"@ || kind == "trait_item"@ || kind == "type_item"@ || kind == "union_item"@
}

pub fn is_definition(kind: &str) -> (result: bool)
    ensures
        result == is_definition_kind(kind@),
{
    same_str(kind, "const_item") || same_str(kind, "enum_item") || same_str(
        kind,
        "extern_crate_declaration",
    ) || same_str(kind, "foreign_mod_item") || same_str(kind, "function_item") || same_str(
        kind,
        "impl_item",
    ) || same_str(kind, "macro_definition") || same_str(kind, "mod_item") || same_str(
        kind,
        "static_item",
    ) || same_str(kind, "struct_item") || same_str(kind, "trait_item") || same_str(
        kind,
        "type_item",
    ) || same_str(kind, "union_item")
}

/// Members of a definition that are owners in their own right.
pub open spec fn is_member_kind(kind: Seq<char>) -> bool {
    kind == "associated_type"@ || kind == "enum_variant"@ || kind == "field_declaration"@ || kind
        == "function_signature_item"@
}

fn is_member(kind: &str) -> (result: bool)
    ensures
        result == is_member_kind(kind@),
{
    same_str(kind, "associated_type") || same_str(kind, "enum_variant") || same_str(
        kind,
        "field_declaration",
    ) || same_str(kind, "function_signature_item")
}

/// Nested semantic boundaries that may receive an outer attribute or documentation comment.
pub open spec fn is_nested_decoration_owner_kind(kind: Seq<char>) -> bool {
    is_definition_kind(kind) || is_member_kind(kind) || kind == "let_declaration"@ || kind
        == "macro_invocation"@ || kind == "match_arm"@
}

/// Nested semantic boundaries that may receive an outer attribute or documentation comment.
pub fn is_nested_decoration_owner(kind: &str) -> (result: bool)
    ensures
        result == is_nested_decoration_owner_kind(kind@),
{
    is_definition(kind) || is_member(kind) || same_str(kind, "let_declaration") || same_str(
        kind,
        "macro_invocation",
    ) || same_str(kind, "match_arm")
}

pub open spec fn is_comment_kind(kind: Seq<char>) -> bool {
    kind == "line_comment"@ || kind == "block_comment"@
}

/// Text at the start of a node.
pub open spec fn starts(data: Seq<u8>, at: int, text: Seq<char>) -> bool {
    occurs_at(data, encode_utf8(text), at)
}

/// Owner of a documentation comment: the enclosing item for inner documentation, the next
/// item for outer documentation, nothing for ordinary comments.
pub open spec fn doc_comment_owner(kind: Seq<char>, data: Seq<u8>, at: int) -> DecorationHint {
    if kind == "line_comment"@ {
        if starts(data, at, "//!"@) {
            DecorationHint::EnclosingOwner
        } else if starts(data, at, "///"@) && !starts(data, at, "////"@) {
            DecorationHint::FollowingSibling
        } else {
            DecorationHint::Nothing
        }
    } else {
        if starts(data, at, "/*!"@) {
            DecorationHint::EnclosingOwner
        } else if starts(data, at, "/**"@) && !starts(data, at, "/***"@) {
            DecorationHint::FollowingSibling
        } else {
            DecorationHint::Nothing
        }
    }
}

/// Owner of a documentation comment.
pub fn doc_comment_decoration(kind: &str, source: &Source, at: usize) -> (hint: DecorationHint)
    ensures
        hint == doc_comment_owner(kind@, source.data(), at as int),
{
    let bytes = source.as_bytes();
    if same_str(kind, "line_comment") {
        if bytes_at(bytes, at, "//!") {
            DecorationHint::EnclosingOwner
        } else if bytes_at(bytes, at, "///") && !bytes_at(bytes, at, "////") {
            DecorationHint::FollowingSibling
        } else {
            DecorationHint::Nothing
        }
    } else {
        if bytes_at(bytes, at, "/*!") {
            DecorationHint::EnclosingOwner
        } else if bytes_at(bytes, at, "/**") && !bytes_at(bytes, at, "/***") {
            DecorationHint::FollowingSibling
        } else {
            DecorationHint::Nothing
        }
    }
}

/// External module declarations are source wiring; inline modules remain definitions.
pub open spec fn is_bodyless_module_at(raw: RawTree, index: int) -> bool {
    raw.at(index).kind@ == "mod_item"@ && raw.field_child(index, "body"@) is None
}

/// External module declarations are source wiring; inline modules remain definitions.
pub fn is_bodyless_module(raw: &RawTree, index: usize) -> (result: bool)
    requires
        raw.wf(),
        index < raw.entries@.len(),
    ensures
        result == is_bodyless_module_at(*raw, index as int),
{
    raw.is_kind(index, "mod_item") && raw.child_by_field(index, "body").is_none()
}

/// Byte range of an optional parser node.
pub open spec fn span_of(raw: RawTree, node: Option<int>) -> Option<Span> {
    match node {
        Some(node) => Some(raw.bytes_of(node)),
        None => None,
    }
}

/// The first of two optional nodes that exists.
pub open spec fn either(first: Option<int>, second: Option<int>) -> Option<int> {
    if first is Some {
        first
    } else {
        second
    }
}

/// Name of a definition; an implementation is named by its type.
pub open spec fn identity_at(raw: RawTree, index: int) -> Option<int> {
    either(
        raw.field_child(index, "name"@),
        if raw.at(index).kind@ == "impl_item"@ {
            raw.field_child(index, "type"@)
        } else {
            None
        },
    )
}

/// Name of a definition; an implementation is named by its type.
pub fn identity_node(raw: &RawTree, index: usize) -> (identity: Option<usize>)
    requires
        raw.wf(),
        index < raw.entries@.len(),
    ensures
        match identity {
            Some(found) => identity_at(*raw, index as int) == Some(found as int) && found
                < raw.entries@.len(),
            None => identity_at(*raw, index as int) is None,
        },
{
    let identity = raw.child_by_field(index, "name");
    if identity.is_some() {
        return identity;
    }
    if !raw.is_kind(index, "impl_item") {
        return None;
    }
    raw.child_by_field(index, "type")
}

/// The called method, path end, or plain identifier.
pub open spec fn call_name(raw: RawTree, index: int) -> Option<int> {
    match raw.field_child(index, "function"@) {
        None => None,
        Some(function) => either(
            raw.field_child(function, "field"@),
            either(
                raw.field_child(function, "name"@),
                if raw.at(function).kind@ == "identifier"@ {
                    Some(function)
                } else {
                    None
                },
            ),
        ),
    }
}

fn call_identity(raw: &RawTree, index: usize) -> (identity: Option<usize>)
    requires
        raw.wf(),
        index < raw.entries@.len(),
    ensures
        match identity {
            Some(found) => call_name(*raw, index as int) == Some(found as int) && found
                < raw.entries@.len(),
            None => call_name(*raw, index as int) is None,
        },
{
    let function = match raw.child_by_field(index, "function") {
        None => {
            return None;
        },
        Some(function) => function,
    };
    let field = raw.child_by_field(function, "field");
    if field.is_some() {
        return field;
    }
    let name = raw.child_by_field(function, "name");
    if name.is_some() {
        return name;
    }
    if raw.is_kind(function, "identifier") {
        Some(function)
    } else {
        None
    }
}

/// A statement that only calls is named by its callee.
pub open spec fn statement_name(raw: RawTree, index: int) -> Option<int> {
    match raw.kind_from(
        index + 1,
        raw.ends@[index] as int,
        "call_expression"@,
        "call_expression"@,
    ) {
        Some(call) => call_name(raw, call),
        None => None,
    }
}

/// Identity of syntax below the review boundaries.
pub open spec fn inner_name(raw: RawTree, index: int) -> Option<int> {
    let kind = raw.at(index).kind@;
    if is_member_kind(kind) {
        raw.field_child(index, "name"@)
    } else if kind == "parameter"@ {
        raw.field_child(index, "pattern"@)
    } else if kind == "call_expression"@ {
        call_name(raw, index)
    } else if kind == "expression_statement"@ {
        statement_name(raw, index)
    } else if kind == "binary_expression"@ {
        raw.field_child(index, "operator"@)
    } else {
        None
    }
}

fn inner_identity(raw: &RawTree, index: usize) -> (identity: Option<usize>)
    requires
        raw.wf(),
        index < raw.entries@.len(),
    ensures
        match identity {
            Some(found) => inner_name(*raw, index as int) == Some(found as int) && found
                < raw.entries@.len(),
            None => inner_name(*raw, index as int) is None,
        },
{
    let kind = raw.kind(index);
    if is_member(kind) {
        raw.child_by_field(index, "name")
    } else if same_str(kind, "parameter") {
        raw.child_by_field(index, "pattern")
    } else if same_str(kind, "call_expression") {
        call_identity(raw, index)
    } else if same_str(kind, "expression_statement") {
        match raw.named_child_of_kind(index, "call_expression", "call_expression") {
            Some(call) => call_identity(raw, call),
            None => None,
        }
    } else if same_str(kind, "binary_expression") {
        raw.child_by_field(index, "operator")
    } else {
        None
    }
}

/// The decoration that an attribute is.
pub open spec fn attribute_hint(kind: Seq<char>) -> DecorationHint {
    if kind == "attribute_item"@ {
        DecorationHint::FollowingSibling
    } else if kind == "inner_attribute_item"@ {
        DecorationHint::EnclosingOwner
    } else {
        DecorationHint::Nothing
    }
}

/// What Rust makes of one parser node.
pub open spec fn annotation(
    raw: RawTree,
    index: int,
    parent_kind: Option<&str>,
    data: Seq<u8>,
) -> NodeAnnotation {
    let kind = raw.at(index).kind@;
    let top = parent_kind matches Some(parent) && parent@ == "source_file"@;
    if kind == "source_file"@ {
        owner(None, None, DecorationHint::Nothing)
    } else if is_comment_kind(kind) {
        commentary(
            unit_if(top, ReviewMode::Linewise, LayoutOwnership::Nothing),
            doc_comment_owner(kind, data, raw.at(index).start as int),
        )
    } else if kind == "use_declaration"@ || is_bodyless_module_at(raw, index) {
        owner(
            unit_if(top, ReviewMode::Compact, LayoutOwnership::Nothing),
            span_of(
                raw,
                either(raw.field_child(index, "argument"@), raw.field_child(index, "name"@)),
            ),
            DecorationHint::Nothing,
        )
    } else if is_definition_kind(kind) {
        owner(
            unit_if(top, ReviewMode::StructureAware, LayoutOwnership::AdjacentBlankLines),
            span_of(raw, identity_at(raw, index)),
            DecorationHint::Nothing,
        )
    } else if top && raw.at(index).named {
        owner(
            unit_if(true, ReviewMode::Linewise, LayoutOwnership::AdjacentBlankLines),
            None,
            attribute_hint(kind),
        )
    } else {
        NodeAnnotation {
            identity: span_of(raw, inner_name(raw, index)),
            decoration: attribute_hint(kind),
            owns_decorations: is_nested_decoration_owner_kind(kind),
            correspondence: if is_member_kind(kind) {
                CorrespondenceRole::HardOwner
            } else {
                CorrespondenceRole::Transparent
            },
            ..plain()
        }
    }
}

/// What Rust makes of one parser node.
pub fn annotate(
    raw: &RawTree,
    index: usize,
    parent_kind: Option<&'static str>,
    source: &Source,
) -> (result: NodeAnnotation)
    requires
        raw.wf(),
        index < raw.entries@.len(),
    ensures
        result == annotation(*raw, index as int, parent_kind, source.data()),
{
    let kind = raw.kind(index);
    let top = match parent_kind {
        Some(parent) => same_str(parent, "source_file"),
        None => false,
    };
    if same_str(kind, "source_file") {
        return NodeAnnotation::owner(None, None, DecorationHint::Nothing);
    }
    if same_str(kind, "line_comment") || same_str(kind, "block_comment") {
        return NodeAnnotation::commentary(
            unit_when(top, ReviewMode::Linewise, LayoutOwnership::Nothing),
            doc_comment_decoration(kind, source, raw.bytes(index).start),
        );
    }
    if same_str(kind, "use_declaration") || is_bodyless_module(raw, index) {
        let argument = raw.child_by_field(index, "argument");
        let identity = match argument {
            Some(found) => Some(found),
            None => raw.child_by_field(index, "name"),
        };
        return NodeAnnotation::owner(
            unit_when(top, ReviewMode::Compact, LayoutOwnership::Nothing),
            raw.optional_bytes(identity),
            DecorationHint::Nothing,
        );
    }
    if is_definition(kind) {
        return NodeAnnotation::owner(
            unit_when(top, ReviewMode::StructureAware, LayoutOwnership::AdjacentBlankLines),
            raw.optional_bytes(identity_node(raw, index)),
            DecorationHint::Nothing,
        );
    }
    let decoration = if same_str(kind, "attribute_item") {
        DecorationHint::FollowingSibling
    } else if same_str(kind, "inner_attribute_item") {
        DecorationHint::EnclosingOwner
    } else {
        DecorationHint::Nothing
    };
    if top && raw.entries[index].node.named {
        return NodeAnnotation::owner(
            unit_when(true, ReviewMode::Linewise, LayoutOwnership::AdjacentBlankLines),
            None,
            decoration,
        );
    }
    let mut result = NodeAnnotation::plain();
    result.identity = raw.optional_bytes(inner_identity(raw, index));
    result.decoration = decoration;
    result.owns_decorations = is_nested_decoration_owner(kind);
    if is_member(kind) {
        result.correspondence = CorrespondenceRole::HardOwner;
    }
    result
}

/// Literals whose white space is content.
pub open spec fn is_literal_kind(kind: Seq<char>) -> bool {
    kind == "char_literal"@ || kind == "raw_string_literal"@ || kind == "string_content"@ || kind == "string_literal"@
}

/// White space inside literals is content; elsewhere it is layout.
pub fn gap_channel(raw: &RawTree, parent: usize, source: &Source, bytes: Span) -> (channel:
    ContentChannel)
    requires
        parent < raw.entries@.len(),
    ensures
        channel == blank_channel(
            is_blank_range(source.data(), bytes),
            is_literal_kind(raw.at(parent as int).kind@),
        ),
{
    if !gap_is_blank(source, bytes) {
        return ContentChannel::Syntax;
    }
    let kind = raw.kind(parent);
    if same_str(kind, "char_literal") || same_str(kind, "raw_string_literal") || same_str(kind, "string_content") || same_str(kind, "string_literal") {
        return ContentChannel::Syntax;
    }
    ContentChannel::Layout
}

} // verus!

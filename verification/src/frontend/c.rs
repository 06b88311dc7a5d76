//! C review boundaries and identities.

use crate::frontend::adapter::{
    blank_channel, commentary, gap_is_blank, is_blank_range, owner, plain, unit_if, unit_when, DecorationHint, NodeAnnotation,
};
use crate::frontend::raw::RawTree;
use crate::frontend::rust::{either, span_of};
use crate::source::Source;
use crate::span::Span;
use crate::syntax::{ContentChannel, CorrespondenceRole, LayoutOwnership, ReviewMode};
use crate::text::same_str;
use vstd::prelude::*;

verus! {

pub open spec fn is_definition_kind(kind: Seq<char>) -> bool {
    kind == "function_definition"@ || kind == "declaration"@ || kind == "type_definition"@
}

fn is_definition(kind: &str) -> (result: bool)
    ensures
        result == is_definition_kind(kind@),
{
    same_str(kind, "function_definition") || same_str(kind, "declaration") || same_str(
        kind,
        "type_definition",
    )
}

/// Nested syntax whose contents match only inside its partner.
pub open spec fn is_semantic_owner_kind(kind: Seq<char>) -> bool {
    is_definition_kind(kind) || kind == "enum_specifier"@ || kind == "enumerator"@ || kind
        == "field_declaration"@ || kind == "parameter_declaration"@ || kind == "struct_specifier"@
        || kind == "union_specifier"@
}

fn is_semantic_owner(kind: &str) -> (result: bool)
    ensures
        result == is_semantic_owner_kind(kind@),
{
    is_definition(kind) || same_str(kind, "enum_specifier") || same_str(kind, "enumerator")
        || same_str(kind, "field_declaration") || same_str(kind, "parameter_declaration")
        || same_str(kind, "struct_specifier") || same_str(kind, "union_specifier")
}

pub open spec fn is_preprocessor_kind(kind: Seq<char>) -> bool {
    kind == "preproc_call"@ || kind == "preproc_def"@ || kind == "preproc_elif"@ || kind
        == "preproc_elifdef"@ || kind == "preproc_else"@ || kind == "preproc_function_def"@ || kind
        == "preproc_if"@ || kind == "preproc_ifdef"@ || kind == "preproc_include"@
}

fn is_preprocessor(kind: &str) -> (result: bool)
    ensures
        result == is_preprocessor_kind(kind@),
{
    same_str(kind, "preproc_call") || same_str(kind, "preproc_def") || same_str(
        kind,
        "preproc_elif",
    ) || same_str(kind, "preproc_elifdef") || same_str(kind, "preproc_else") || same_str(
        kind,
        "preproc_function_def",
    ) || same_str(kind, "preproc_if") || same_str(kind, "preproc_ifdef") || same_str(
        kind,
        "preproc_include",
    )
}

/// Conditional regions hold structure; other directives are wiring.
pub open spec fn preprocessor_review(kind: Seq<char>) -> ReviewMode {
    if kind == "preproc_if"@ || kind == "preproc_ifdef"@ {
        ReviewMode::StructureAware
    } else {
        ReviewMode::Compact
    }
}

fn preprocessor_mode(kind: &str) -> (mode: ReviewMode)
    ensures
        mode == preprocessor_review(kind@),
{
    if same_str(kind, "preproc_if") || same_str(kind, "preproc_ifdef") {
        ReviewMode::StructureAware
    } else {
        ReviewMode::Compact
    }
}

/// First of a node's children that one of four fields leads to.
pub open spec fn preprocessor_name(raw: RawTree, index: int) -> Option<int> {
    either(
        raw.field_child(index, "path"@),
        either(
            raw.field_child(index, "name"@),
            either(
                raw.field_child(index, "directive"@),
                raw.field_child(index, "condition"@),
            ),
        ),
    )
}

fn preprocessor_identity(raw: &RawTree, index: usize) -> (identity: Option<usize>)
    requires
        raw.wf(),
        index < raw.entries@.len(),
    ensures
        match identity {
            Some(found) => preprocessor_name(*raw, index as int) == Some(found as int) && found
                < raw.entries@.len(),
            None => preprocessor_name(*raw, index as int) is None,
        },
{
    let path = raw.child_by_field(index, "path");
    if path.is_some() {
        return path;
    }
    let name = raw.child_by_field(index, "name");
    if name.is_some() {
        return name;
    }
    let directive = raw.child_by_field(index, "directive");
    if directive.is_some() {
        return directive;
    }
    raw.child_by_field(index, "condition")
}

pub open spec fn is_name_kind(kind: Seq<char>) -> bool {
    kind == "field_identifier"@ || kind == "identifier"@ || kind == "type_identifier"@
}

/// The name at the bottom of a chain of declarators.
pub open spec fn declarator_name(raw: RawTree, index: int) -> Option<int>
    decreases raw.ends@.len() - index,
{
    if is_name_kind(raw.at(index).kind@) {
        Some(index)
    } else {
        match raw.field_child(index, "declarator"@) {
            Some(inner) => if index < inner < raw.ends@.len() {
                declarator_name(raw, inner)
            } else {
                None
            },
            None => None,
        }
    }
}

fn declarator_identity(raw: &RawTree, index: usize) -> (identity: Option<usize>)
    requires
        raw.wf(),
        index < raw.entries@.len(),
    ensures
        match identity {
            Some(found) => declarator_name(*raw, index as int) == Some(found as int) && found
                < raw.entries@.len(),
            None => declarator_name(*raw, index as int) is None,
        },
{
    let mut at: usize = index;
    loop
        invariant
            raw.wf(),
            at < raw.entries@.len(),
            declarator_name(*raw, index as int) == declarator_name(*raw, at as int),
        decreases raw.entries@.len() - at,
    {
        let kind = raw.kind(at);
        if same_str(kind, "field_identifier") || same_str(kind, "identifier") || same_str(
            kind,
            "type_identifier",
        ) {
            return Some(at);
        }
        match raw.child_by_field(at, "declarator") {
            Some(inner) => {
                at = inner;
            },
            None => {
                return None;
            },
        }
    }
}

pub open spec fn declaration_name(raw: RawTree, index: int) -> Option<int> {
    match raw.field_child(index, "declarator"@) {
        Some(declarator) => declarator_name(raw, declarator),
        None => None,
    }
}

fn declaration_identity(raw: &RawTree, index: usize) -> (identity: Option<usize>)
    requires
        raw.wf(),
        index < raw.entries@.len(),
    ensures
        match identity {
            Some(found) => declaration_name(*raw, index as int) == Some(found as int) && found
                < raw.entries@.len(),
            None => declaration_name(*raw, index as int) is None,
        },
{
    match raw.child_by_field(index, "declarator") {
        Some(declarator) => declarator_identity(raw, declarator),
        None => None,
    }
}

/// A declared name, or the name of the declared type.
pub open spec fn definition_name(raw: RawTree, index: int) -> Option<int> {
    either(
        declaration_name(raw, index),
        match raw.field_child(index, "type"@) {
            Some(specifier) => raw.field_child(specifier, "name"@),
            None => None,
        },
    )
}

fn definition_identity(raw: &RawTree, index: usize) -> (identity: Option<usize>)
    requires
        raw.wf(),
        index < raw.entries@.len(),
    ensures
        match identity {
            Some(found) => definition_name(*raw, index as int) == Some(found as int) && found
                < raw.entries@.len(),
            None => definition_name(*raw, index as int) is None,
        },
{
    let declared = declaration_identity(raw, index);
    if declared.is_some() {
        return declared;
    }
    match raw.child_by_field(index, "type") {
        Some(specifier) => raw.child_by_field(specifier, "name"),
        None => None,
    }
}

/// First identifier among the named descendants reached through named nodes, in preorder.
pub open spec fn first_name_from(raw: RawTree, at: int, end: int) -> Option<int>
    decreases raw.ends@.len() - at,
{
    if at < 0 || at >= end || at >= raw.ends@.len() || !(at < raw.ends@[at] <= raw.ends@.len()) {
        None
    } else if !raw.at(at).named {
        first_name_from(raw, raw.ends@[at] as int, end)
    } else if raw.at(at).kind@ == "field_identifier"@ || raw.at(at).kind@ == "identifier"@ {
        Some(at)
    } else {
        first_name_from(raw, at + 1, end)
    }
}

fn first_identifier(raw: &RawTree, index: usize) -> (identity: Option<usize>)
    requires
        raw.wf(),
        index < raw.entries@.len(),
    ensures
        match identity {
            Some(found) => first_name_from(*raw, index + 1, raw.ends@[index as int] as int) == Some(
                found as int,
            ) && found < raw.entries@.len(),
            None => first_name_from(*raw, index + 1, raw.ends@[index as int] as int) is None,
        },
{
    let end = raw.ends[index];
    let mut at: usize = index + 1;
    while at < end
        invariant
            raw.wf(),
            index < raw.entries@.len(),
            end == raw.ends@[index as int],
            at <= raw.entries@.len(),
            first_name_from(*raw, index + 1, end as int) == first_name_from(
                *raw,
                at as int,
                end as int,
            ),
        decreases raw.entries@.len() - at,
    {
        let node = raw.entries[at].node;
        if !node.named {
            at = raw.ends[at];
        } else if same_str(node.kind, "field_identifier") || same_str(node.kind, "identifier") {
            return Some(at);
        } else {
            at += 1;
        }
    }
    None
}

/// The called name: a field, a plain identifier, or the first identifier of the callee.
pub open spec fn call_name(raw: RawTree, index: int) -> Option<int> {
    match raw.field_child(index, "function"@) {
        None => None,
        Some(function) => either(
            raw.field_child(function, "field"@),
            if raw.at(function).kind@ == "identifier"@ {
                Some(function)
            } else {
                first_name_from(raw, function + 1, raw.ends@[function] as int)
            },
        ),
    }
}

fn call_identity(raw: &RawTree, index: usize) -> (identity: Option<usize>)
    requires
        raw.wf(),
        index < raw.entries@.len(),
    ensures
        match identity {
            Some(found) => call_name(*raw, index as int) == Some(found as int) && found
                < raw.entries@.len(),
            None => call_name(*raw, index as int) is None,
        },
{
    let function = match raw.child_by_field(index, "function") {
        None => {
            return None;
        },
        Some(function) => function,
    };
    let field = raw.child_by_field(function, "field");
    if field.is_some() {
        return field;
    }
    if raw.is_kind(function, "identifier") {
        return Some(function);
    }
    first_identifier(raw, function)
}

/// Identity of syntax below the review boundaries.
pub open spec fn inner_name(raw: RawTree, index: int) -> Option<int> {
    let kind = raw.at(index).kind@;
    if kind == "struct_specifier"@ || kind == "union_specifier"@ || kind == "enum_specifier"@ || kind
        == "enumerator"@ {
        raw.field_child(index, "name"@)
    } else if kind == "field_declaration"@ || kind == "parameter_declaration"@ {
        declaration_name(raw, index)
    } else if kind == "call_expression"@ {
        call_name(raw, index)
    } else if kind == "binary_expression"@ {
        raw.field_child(index, "operator"@)
    } else {
        None
    }
}

fn inner_identity(raw: &RawTree, index: usize) -> (identity: Option<usize>)
    requires
        raw.wf(),
        index < raw.entries@.len(),
    ensures
        match identity {
            Some(found) => inner_name(*raw, index as int) == Some(found as int) && found
                < raw.entries@.len(),
            None => inner_name(*raw, index as int) is None,
        },
{
    let kind = raw.kind(index);
    if same_str(kind, "struct_specifier") || same_str(kind, "union_specifier") || same_str(
        kind,
        "enum_specifier",
    ) || same_str(kind, "enumerator") {
        raw.child_by_field(index, "name")
    } else if same_str(kind, "field_declaration") || same_str(kind, "parameter_declaration") {
        declaration_identity(raw, index)
    } else if same_str(kind, "call_expression") {
        call_identity(raw, index)
    } else if same_str(kind, "binary_expression") {
        raw.child_by_field(index, "operator")
    } else {
        None
    }
}

/// What C makes of one parser node.
pub open spec fn annotation(raw: RawTree, index: int, parent_kind: Option<&str>) -> NodeAnnotation {
    let kind = raw.at(index).kind@;
    let top = parent_kind matches Some(parent) && parent@ == "translation_unit"@;
    if kind == "translation_unit"@ {
        owner(None, None, DecorationHint::Nothing)
    } else if kind == "comment"@ {
        commentary(
            unit_if(top, ReviewMode::Linewise, LayoutOwnership::Nothing),
            DecorationHint::Nothing,
        )
    } else if is_preprocessor_kind(kind) {
        owner(
            unit_if(top, preprocessor_review(kind), LayoutOwnership::AdjacentBlankLines),
            span_of(raw, preprocessor_name(raw, index)),
            DecorationHint::Nothing,
        )
    } else if is_definition_kind(kind) {
        owner(
            unit_if(top, ReviewMode::StructureAware, LayoutOwnership::AdjacentBlankLines),
            span_of(raw, definition_name(raw, index)),
            DecorationHint::Nothing,
        )
    } else if top && raw.at(index).named {
        owner(
            unit_if(true, ReviewMode::Linewise, LayoutOwnership::AdjacentBlankLines),
            None,
            DecorationHint::Nothing,
        )
    } else {
        NodeAnnotation {
            identity: span_of(raw, inner_name(raw, index)),
            correspondence: if is_semantic_owner_kind(kind) {
                CorrespondenceRole::HardOwner
            } else {
                CorrespondenceRole::Transparent
            },
            ..plain()
        }
    }
}

/// What C makes of one parser node.
pub fn annotate(raw: &RawTree, index: usize, parent_kind: Option<&'static str>) -> (result:
    NodeAnnotation)
    requires
        raw.wf(),
        index < raw.entries@.len(),
    ensures
        result == annotation(*raw, index as int, parent_kind),
{
    let kind = raw.kind(index);
    let top = match parent_kind {
        Some(parent) => same_str(parent, "translation_unit"),
        None => false,
    };
    if same_str(kind, "translation_unit") {
        return NodeAnnotation::owner(None, None, DecorationHint::Nothing);
    }
    if same_str(kind, "comment") {
        return NodeAnnotation::commentary(
            unit_when(top, ReviewMode::Linewise, LayoutOwnership::Nothing),
            DecorationHint::Nothing,
        );
    }
    if is_preprocessor(kind) {
        return NodeAnnotation::owner(
            unit_when(top, preprocessor_mode(kind), LayoutOwnership::AdjacentBlankLines),
            raw.optional_bytes(preprocessor_identity(raw, index)),
            DecorationHint::Nothing,
        );
    }
    if is_definition(kind) {
        return NodeAnnotation::owner(
            unit_when(top, ReviewMode::StructureAware, LayoutOwnership::AdjacentBlankLines),
            raw.optional_bytes(definition_identity(raw, index)),
            DecorationHint::Nothing,
        );
    }
    if top && raw.entries[index].node.named {
        return NodeAnnotation::owner(
            unit_when(true, ReviewMode::Linewise, LayoutOwnership::AdjacentBlankLines),
            None,
            DecorationHint::Nothing,
        );
    }
    let mut result = NodeAnnotation::plain();
    result.identity = raw.optional_bytes(inner_identity(raw, index));
    if is_semantic_owner(kind) {
        result.correspondence = CorrespondenceRole::HardOwner;
    }
    result
}

/// Literals whose white space is content.
pub open spec fn is_literal_kind(kind: Seq<char>) -> bool {
    kind == "char_literal"@ || kind == "string_literal"@ || kind == "system_lib_string"@
}

/// White space inside literals is content; elsewhere it is layout.
pub fn gap_channel(raw: &RawTree, parent: usize, source: &Source, bytes: Span) -> (channel:
    ContentChannel)
    requires
        parent < raw.entries@.len(),
    ensures
        channel == blank_channel(
            is_blank_range(source.data(), bytes),
            is_literal_kind(raw.at(parent as int).kind@),
        ),
{
    if !gap_is_blank(source, bytes) {
        return ContentChannel::Syntax;
    }
    let kind = raw.kind(parent);
    if same_str(kind, "char_literal") || same_str(kind, "string_literal") || same_str(kind, "system_lib_string") {
        return ContentChannel::Syntax;
    }
    ContentChannel::Layout
}

} // verus!

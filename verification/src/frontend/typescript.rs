//! TypeScript and JavaScript review boundaries and identities.

use crate::frontend::adapter::{
    blank_channel, commentary, gap_is_blank, is_blank_range, owner, plain, unit_if, unit_when,
    DecorationHint, NodeAnnotation,
};
use crate::frontend::raw::RawTree;
use crate::frontend::rust::{either, span_of};
use crate::source::Source;
use crate::span::Span;
use crate::syntax::{ContentChannel, CorrespondenceRole, LayoutOwnership, ReviewMode};
use crate::text::same_str;
use vstd::prelude::*;

verus! {

pub open spec fn is_declaration_kind(kind: Seq<char>) -> bool {
    is_wrapper_kind(kind) || is_declaration_owner_kind(kind)
}

/// Declarations that only wrap another declaration.
pub open spec fn is_wrapper_kind(kind: Seq<char>) -> bool {
    kind == "ambient_declaration"@ || kind == "export_statement"@
}

/// Declarations whose contents match only inside their partner.
pub open spec fn is_declaration_owner_kind(kind: Seq<char>) -> bool {
    kind == "abstract_class_declaration"@ || kind == "class_declaration"@ || kind
        == "enum_declaration"@ || kind == "function_declaration"@ || kind == "function_signature"@
        || kind == "generator_function_declaration"@ || kind == "interface_declaration"@ || kind
        == "internal_module"@ || kind == "lexical_declaration"@ || kind == "method_definition"@
        || kind == "method_signature"@ || kind == "module"@ || kind == "type_alias_declaration"@
        || kind == "using_declaration"@ || kind == "variable_declaration"@
}

fn is_wrapper(kind: &str) -> (result: bool)
    ensures
        result == is_wrapper_kind(kind@),
{
    same_str(kind, "ambient_declaration") || same_str(kind, "export_statement")
}

fn is_declaration_owner(kind: &str) -> (result: bool)
    ensures
        result == is_declaration_owner_kind(kind@),
{
    same_str(kind, "abstract_class_declaration") || same_str(kind, "class_declaration")
        || same_str(kind, "enum_declaration") || same_str(kind, "function_declaration")
        || same_str(kind, "function_signature") || same_str(kind, "generator_function_declaration")
        || same_str(kind, "interface_declaration") || same_str(kind, "internal_module")
        || same_str(kind, "lexical_declaration") || same_str(kind, "method_definition")
        || same_str(kind, "method_signature") || same_str(kind, "module") || same_str(
        kind,
        "type_alias_declaration",
    ) || same_str(kind, "using_declaration") || same_str(kind, "variable_declaration")
}

pub open spec fn is_member_kind(kind: Seq<char>) -> bool {
    kind == "pair"@ || kind == "property_signature"@ || kind == "public_field_definition"@
}

fn is_member(kind: &str) -> (result: bool)
    ensures
        result == is_member_kind(kind@),
{
    same_str(kind, "pair") || same_str(kind, "property_signature") || same_str(
        kind,
        "public_field_definition",
    )
}

/// Anonymous structures whose child payload must not choose a sibling occurrence.
pub open spec fn is_local_container_kind(kind: Seq<char>) -> bool {
    kind == "object"@ || kind == "object_pattern"@ || kind == "object_type"@
}

/// Anonymous structures whose child payload must not choose a sibling occurrence.
fn is_local_container(kind: &str) -> (result: bool)
    ensures
        result == is_local_container_kind(kind@),
{
    same_str(kind, "object") || same_str(kind, "object_pattern") || same_str(kind, "object_type")
}

pub open spec fn is_jsx_element_kind(kind: Seq<char>) -> bool {
    kind == "jsx_element"@ || kind == "jsx_self_closing_element"@
}

fn is_jsx_element(kind: &str) -> (result: bool)
    ensures
        result == is_jsx_element_kind(kind@),
{
    same_str(kind, "jsx_element") || same_str(kind, "jsx_self_closing_element")
}

/// A name, property, or key that the node itself carries.
pub open spec fn direct_name(raw: RawTree, index: int) -> Option<int> {
    either(
        raw.field_child(index, "name"@),
        either(raw.field_child(index, "property"@), raw.field_child(index, "key"@)),
    )
}

fn direct_identity(raw: &RawTree, index: usize) -> (identity: Option<usize>)
    requires
        raw.wf(),
        index < raw.entries@.len(),
    ensures
        match identity {
            Some(found) => direct_name(*raw, index as int) == Some(found as int) && found
                < raw.entries@.len(),
            None => direct_name(*raw, index as int) is None,
        },
{
    let name = raw.child_by_field(index, "name");
    if name.is_some() {
        return name;
    }
    let property = raw.child_by_field(index, "property");
    if property.is_some() {
        return property;
    }
    raw.child_by_field(index, "key")
}

/// First direct name among a node and the descendants reached through named nodes, in preorder.
pub open spec fn name_below(raw: RawTree, at: int, end: int) -> Option<int>
    decreases raw.ends@.len() - at,
{
    if at < 0 || at >= end || at >= raw.ends@.len() || !(at < raw.ends@[at] <= raw.ends@.len()) {
        None
    } else if !raw.at(at).named {
        name_below(raw, raw.ends@[at] as int, end)
    } else if direct_name(raw, at) is Some {
        direct_name(raw, at)
    } else {
        name_below(raw, at + 1, end)
    }
}

/// First direct name at a root or below it.
pub open spec fn descendant_name(raw: RawTree, root: int) -> Option<int> {
    either(direct_name(raw, root), name_below(raw, root + 1, raw.ends@[root] as int))
}

fn descendant_identity(raw: &RawTree, root: usize) -> (identity: Option<usize>)
    requires
        raw.wf(),
        root < raw.entries@.len(),
    ensures
        match identity {
            Some(found) => descendant_name(*raw, root as int) == Some(found as int) && found
                < raw.entries@.len(),
            None => descendant_name(*raw, root as int) is None,
        },
{
    let own = direct_identity(raw, root);
    if own.is_some() {
        return own;
    }
    let end = raw.ends[root];
    let mut at: usize = root + 1;
    while at < end
        invariant
            raw.wf(),
            root < raw.entries@.len(),
            end == raw.ends@[root as int],
            at <= raw.entries@.len(),
            direct_name(*raw, root as int) is None,
            name_below(*raw, root + 1, end as int) == name_below(*raw, at as int, end as int),
        decreases raw.entries@.len() - at,
    {
        if !raw.entries[at].node.named {
            at = raw.ends[at];
        } else {
            let identity = direct_identity(raw, at);
            if identity.is_some() {
                return identity;
            }
            at += 1;
        }
    }
    None
}

/// Name of a declaration: its own, that of what it wraps, its module source, or the first below.
pub open spec fn declaration_name(raw: RawTree, index: int) -> Option<int> {
    either(
        direct_name(raw, index),
        either(
            match raw.field_child(index, "declaration"@) {
                Some(declaration) => descendant_name(raw, declaration),
                None => None,
            },
            either(raw.field_child(index, "source"@), descendant_name(raw, index)),
        ),
    )
}

fn declaration_identity(raw: &RawTree, index: usize) -> (identity: Option<usize>)
    requires
        raw.wf(),
        index < raw.entries@.len(),
    ensures
        match identity {
            Some(found) => declaration_name(*raw, index as int) == Some(found as int) && found
                < raw.entries@.len(),
            None => declaration_name(*raw, index as int) is None,
        },
{
    let identity = direct_identity(raw, index);
    if identity.is_some() {
        return identity;
    }
    if let Some(declaration) = raw.child_by_field(index, "declaration") {
        let identity = descendant_identity(raw, declaration);
        if identity.is_some() {
            return identity;
        }
    }
    let source = raw.child_by_field(index, "source");
    if source.is_some() {
        return source;
    }
    descendant_identity(raw, index)
}

/// The called property, name, or plain identifier.
pub open spec fn call_name(raw: RawTree, index: int) -> Option<int> {
    match either(raw.field_child(index, "function"@), raw.field_child(index, "constructor"@)) {
        None => None,
        Some(function) => either(
            raw.field_child(function, "property"@),
            either(
                raw.field_child(function, "name"@),
                if raw.at(function).kind@ == "identifier"@ {
                    Some(function)
                } else {
                    None
                },
            ),
        ),
    }
}

fn call_identity(raw: &RawTree, index: usize) -> (identity: Option<usize>)
    requires
        raw.wf(),
        index < raw.entries@.len(),
    ensures
        match identity {
            Some(found) => call_name(*raw, index as int) == Some(found as int) && found
                < raw.entries@.len(),
            None => call_name(*raw, index as int) is None,
        },
{
    let called = raw.child_by_field(index, "function");
    let function = match called {
        Some(function) => function,
        None => match raw.child_by_field(index, "constructor") {
            Some(function) => function,
            None => {
                return None;
            },
        },
    };
    let property = raw.child_by_field(function, "property");
    if property.is_some() {
        return property;
    }
    let name = raw.child_by_field(function, "name");
    if name.is_some() {
        return name;
    }
    if raw.is_kind(function, "identifier") {
        Some(function)
    } else {
        None
    }
}

/// Tag name of an element.
pub open spec fn element_name(raw: RawTree, index: int) -> Option<int> {
    match raw.field_child(index, "open_tag"@) {
        Some(opening) => raw.field_child(opening, "name"@),
        None => raw.field_child(index, "name"@),
    }
}

fn jsx_name(raw: &RawTree, index: usize) -> (identity: Option<usize>)
    requires
        raw.wf(),
        index < raw.entries@.len(),
    ensures
        match identity {
            Some(found) => element_name(*raw, index as int) == Some(found as int) && found
                < raw.entries@.len(),
            None => element_name(*raw, index as int) is None,
        },
{
    match raw.child_by_field(index, "open_tag") {
        Some(opening) => raw.child_by_field(opening, "name"),
        None => raw.child_by_field(index, "name"),
    }
}

/// Identity of syntax below the review boundaries.
pub open spec fn inner_name(raw: RawTree, index: int) -> Option<int> {
    let kind = raw.at(index).kind@;
    if is_member_kind(kind) {
        direct_name(raw, index)
    } else if kind == "call_expression"@ || kind == "new_expression"@ {
        call_name(raw, index)
    } else if kind == "binary_expression"@ {
        raw.field_child(index, "operator"@)
    } else {
        None
    }
}

fn inner_identity(raw: &RawTree, index: usize) -> (identity: Option<usize>)
    requires
        raw.wf(),
        index < raw.entries@.len(),
    ensures
        match identity {
            Some(found) => inner_name(*raw, index as int) == Some(found as int) && found
                < raw.entries@.len(),
            None => inner_name(*raw, index as int) is None,
        },
{
    let kind = raw.kind(index);
    if is_member(kind) {
        direct_identity(raw, index)
    } else if same_str(kind, "call_expression") || same_str(kind, "new_expression") {
        call_identity(raw, index)
    } else if same_str(kind, "binary_expression") {
        raw.child_by_field(index, "operator")
    } else {
        None
    }
}

/// What TypeScript and JavaScript make of one parser node.
pub open spec fn annotation(raw: RawTree, index: int, parent_kind: Option<&str>) -> NodeAnnotation {
    let kind = raw.at(index).kind@;
    let top = parent_kind matches Some(parent) && parent@ == "program"@;
    if kind == "program"@ {
        owner(None, None, DecorationHint::Nothing)
    } else if kind == "comment"@ || kind == "html_comment"@ {
        commentary(
            unit_if(top, ReviewMode::Linewise, LayoutOwnership::Nothing),
            DecorationHint::Nothing,
        )
    } else if kind == "import_statement"@ {
        owner(
            unit_if(top, ReviewMode::Compact, LayoutOwnership::Nothing),
            span_of(raw, raw.field_child(index, "source"@)),
            DecorationHint::Nothing,
        )
    } else if is_jsx_element_kind(kind) {
        NodeAnnotation {
            identity: span_of(raw, element_name(raw, index)),
            correspondence: CorrespondenceRole::LocalOwner,
            ..plain()
        }
    } else if is_declaration_kind(kind) {
        NodeAnnotation {
            review: unit_if(
                top,
                ReviewMode::StructureAware,
                LayoutOwnership::AdjacentBlankLines,
            ),
            identity: span_of(raw, declaration_name(raw, index)),
            correspondence: if is_declaration_owner_kind(kind) {
                CorrespondenceRole::HardOwner
            } else {
                CorrespondenceRole::Transparent
            },
            ..plain()
        }
    } else if top && raw.at(index).named {
        owner(
            unit_if(true, ReviewMode::Linewise, LayoutOwnership::AdjacentBlankLines),
            None,
            DecorationHint::Nothing,
        )
    } else {
        NodeAnnotation {
            identity: span_of(raw, inner_name(raw, index)),
            correspondence: if is_member_kind(kind) {
                CorrespondenceRole::HardOwner
            } else if is_local_container_kind(kind) {
                CorrespondenceRole::LocalOwner
            } else {
                CorrespondenceRole::Transparent
            },
            ..plain()
        }
    }
}

/// What TypeScript and JavaScript make of one parser node.
pub fn annotate(raw: &RawTree, index: usize, parent_kind: Option<&'static str>) -> (result:
    NodeAnnotation)
    requires
        raw.wf(),
        index < raw.entries@.len(),
    ensures
        result == annotation(*raw, index as int, parent_kind),
{
    let kind = raw.kind(index);
    let top = match parent_kind {
        Some(parent) => same_str(parent, "program"),
        None => false,
    };
    if same_str(kind, "program") {
        return NodeAnnotation::owner(None, None, DecorationHint::Nothing);
    }
    if same_str(kind, "comment") || same_str(kind, "html_comment") {
        return NodeAnnotation::commentary(
            unit_when(top, ReviewMode::Linewise, LayoutOwnership::Nothing),
            DecorationHint::Nothing,
        );
    }
    if same_str(kind, "import_statement") {
        return NodeAnnotation::owner(
            unit_when(top, ReviewMode::Compact, LayoutOwnership::Nothing),
            raw.optional_bytes(raw.child_by_field(index, "source")),
            DecorationHint::Nothing,
        );
    }
    let mut result = NodeAnnotation::plain();
    if is_jsx_element(kind) {
        result.identity = raw.optional_bytes(jsx_name(raw, index));
        result.correspondence = CorrespondenceRole::LocalOwner;
        return result;
    }
    if is_wrapper(kind) || is_declaration_owner(kind) {
        result.review = unit_when(
            top,
            ReviewMode::StructureAware,
            LayoutOwnership::AdjacentBlankLines,
        );
        result.identity = raw.optional_bytes(declaration_identity(raw, index));
        if is_declaration_owner(kind) {
            result.correspondence = CorrespondenceRole::HardOwner;
        }
        return result;
    }
    if top && raw.entries[index].node.named {
        return NodeAnnotation::owner(
            unit_when(true, ReviewMode::Linewise, LayoutOwnership::AdjacentBlankLines),
            None,
            DecorationHint::Nothing,
        );
    }
    result.identity = raw.optional_bytes(inner_identity(raw, index));
    if is_member(kind) {
        result.correspondence = CorrespondenceRole::HardOwner;
    } else if is_local_container(kind) {
        result.correspondence = CorrespondenceRole::LocalOwner;
    }
    result
}

/// Literals whose white space is content.
pub open spec fn is_literal_kind(kind: Seq<char>) -> bool {
    kind == "string"@ || kind == "string_fragment"@ || kind == "template_literal_type"@ || kind
        == "template_string"@ || kind == "template_type"@
}

/// White space inside literals is content; elsewhere it is layout.
pub fn gap_channel(raw: &RawTree, parent: usize, source: &Source, bytes: Span) -> (channel:
    ContentChannel)
    requires
        parent < raw.entries@.len(),
    ensures
        channel == blank_channel(
            is_blank_range(source.data(), bytes),
            is_literal_kind(raw.at(parent as int).kind@),
        ),
{
    if !gap_is_blank(source, bytes) {
        return ContentChannel::Syntax;
    }
    let kind = raw.kind(parent);
    if same_str(kind, "string") || same_str(kind, "string_fragment") || same_str(
        kind,
        "template_literal_type",
    ) || same_str(kind, "template_string") || same_str(kind, "template_type") {
        return ContentChannel::Syntax;
    }
    ContentChannel::Layout
}

} // verus!

//! Links between the nodes and lines of two revisions.

use crate::span::Span;
use crate::syntax::{NodeId, ReviewMode};
use vstd::prelude::*;

verus! {

/// Paired physical rows, addressed by zero-based source-line indices.
/// Exact matches and terminator edits are stored separately in `SourceProjection`.
#[derive(Clone, Copy, Debug, PartialEq, Eq, Structural)]
pub struct LineLink {
    pub before: usize,
    pub after: usize,
}

/// Zero-based physical source ranges that require local linewise review.
#[derive(Clone, Copy, Debug, PartialEq, Eq, Structural)]
pub struct LineFallback {
    pub before: Span,
    pub after: Span,
}

/// Fate of one review unit.
#[derive(Clone, Copy, Debug, PartialEq, Eq, Structural)]
pub enum UnitEdit {
    Matched(MatchedUnit),
    Removed { before: NodeId },
    Added { after: NodeId },
}

/// Two review units that are revisions of each other.
#[derive(Clone, Copy, Debug, PartialEq, Eq, Structural)]
pub struct MatchedUnit {
    pub before: NodeId,
    pub after: NodeId,
    /// Review mode reconciled symmetrically from both revisions.
    pub mode: ReviewMode,
    pub relation: ContentRelation,
    pub placement: Placement,
    /// Indices of this unit's links in the leaf correspondence.
    pub leaf_links: Span,
    /// Indices of this unit's links among the composites.
    pub composites: Span,
}

/// Strongest applicable equality level.
/// Source includes layout; full fingerprints omit layout leaves, and payload also omits comments.
#[derive(Clone, Copy, Debug, PartialEq, Eq, Structural)]
pub enum ContentRelation {
    SourceEqual,
    FullEqual,
    PayloadEqual,
    Modified,
}

impl ContentRelation {
    /// How much is shared: more for a stronger equality.
    pub open spec fn strength(self) -> int {
        match self {
            ContentRelation::SourceEqual => 3,
            ContentRelation::FullEqual => 2,
            ContentRelation::PayloadEqual => 1,
            ContentRelation::Modified => 0,
        }
    }

    pub fn source_equal(self) -> (result: bool)
        ensures
            result == (self.strength() >= 3),
    {
        matches!(self, ContentRelation::SourceEqual)
    }

    pub fn full_equal(self) -> (result: bool)
        ensures
            result == (self.strength() >= 2),
    {
        matches!(self, ContentRelation::SourceEqual | ContentRelation::FullEqual)
    }

    pub fn payload_equal(self) -> (result: bool)
        ensures
            result == (self.strength() >= 1),
    {
        !matches!(self, ContentRelation::Modified)
    }
}

/// Equal source is equal in full, and equal in full is equal in payload.
pub proof fn law_relations_are_nested(relation: ContentRelation)
    ensures
        relation.strength() >= 3 ==> relation.strength() >= 2,
        relation.strength() >= 2 ==> relation.strength() >= 1,
        relation.strength() < 1 <==> relation == ContentRelation::Modified,
{
}

/// Relative order inside the frontend-selected movement domain.
#[derive(Clone, Copy, Debug, PartialEq, Eq, Structural)]
pub enum Placement {
    Stable,
    Reordered,
}

/// Paired leaves with the evidence that pairs them.
#[derive(Clone, Copy, Debug, PartialEq, Eq, Structural)]
pub struct LeafLink {
    pub before: NodeId,
    pub after: NodeId,
    pub relation: LeafRelation,
    pub placement: Placement,
    pub parent: ParentCorrespondence,
    /// Enclosing wrapper change, carried to presentation so retained content can appear as reflow.
    pub wrapper: Option<Reparenting>,
}

impl LeafLink {
    /// Whether a wrapper was inserted or removed around the leaf.
    pub fn reparented(&self) -> (result: bool)
        ensures
            result == (self.wrapper is Some || self.parent != ParentCorrespondence::Direct),
    {
        self.wrapper.is_some() || self.parent != ParentCorrespondence::Direct
    }
}

/// Exact payload equality or a replacement inferred from matching syntax roles.
#[derive(Clone, Copy, Debug, PartialEq, Eq, Structural)]
pub enum LeafRelation {
    Exact,
    Modified,
}

/// Exact named subtree with placement and wrapper evidence for presentation.
#[derive(Clone, Copy, Debug, PartialEq, Eq, Structural)]
pub struct NodeLink {
    pub before: NodeId,
    pub after: NodeId,
    pub parent: ParentCorrespondence,
    pub wrapper: Option<Reparenting>,
    pub placement: Placement,
}

impl NodeLink {
    /// Whether a wrapper was inserted or removed around the subtree.
    pub fn reparented(&self) -> (result: bool)
        ensures
            result == (self.wrapper is Some || self.parent != ParentCorrespondence::Direct),
    {
        self.wrapper.is_some() || self.parent != ParentCorrespondence::Direct
    }
}

/// Exact subtree transferred between surviving nested owners.
/// Source formation must still validate line ownership and indentation before displaying a move.
#[derive(Clone, Copy, Debug, PartialEq, Eq, Structural)]
pub struct RelocatedNode {
    pub before: NodeId,
    pub after: NodeId,
}

/// Paired semantic containers that constrain where descendant nodes and lines may match.
#[derive(Clone, Copy, Debug, PartialEq, Eq, Structural)]
pub struct ScopeLink {
    pub before: NodeId,
    pub after: NodeId,
    pub placement: Placement,
    pub parent: ParentCorrespondence,
}

/// Evidence that a link connects matched semantic parents, possibly through a wrapper.
#[derive(Clone, Copy, Debug, PartialEq, Eq, Structural)]
pub enum ParentCorrespondence {
    Direct,
    Reparented(Reparenting),
}

/// Wrapper insertion or removal justified by a single surviving containment path.
#[derive(Clone, Copy, Debug, PartialEq, Eq, Structural)]
pub enum Reparenting {
    Wrapped,
    Unwrapped,
}

} // verus!

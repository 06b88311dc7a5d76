//! Lay parser nodes and the bytes between them out as one byte-total preorder arena.

use crate::frontend::adapter::{
    blank_channel, breaks_line, delimiter_kind, highlight_classes, is_blank_range,
    highlighted, is_delimiter_kind, leaf_class, leaf_role, leaf_syntax, role_of, DecorationHint,
    NodeAnnotation,
};
use crate::frontend::raw::RawTree;
use crate::frontend::{c, css, html, rust, typescript};
use crate::grammar::{
    all_captures, capture_views, is_failure, is_preorder, parse_entries, parsed_entries, Capture,
    CaptureView, HighlightSource, ParseFailure, RawEntry,
};
use crate::source::Source;
use crate::span::Span;
use crate::syntax::{
    arena_wf, children_hold, node_fits, parent_holds, ContentChannel, CorrespondenceRole, Language, Leaf, LeafRole, NodeId,
    ProjectionHealth, ReviewUnit, SyntaxClass, SyntaxNode, SyntaxTree,
};
use vstd::prelude::*;

verus! {

/// Largest parser tree that is laid out.
pub const MAX_SYNTAX_NODES: usize = 500_000;

/// One arena entry before its children and lines are known.
#[derive(Clone, Copy)]
pub struct Draft {
    pub kind: &'static str,
    pub slot: Option<&'static str>,
    pub bytes: Span,
    pub parent: Option<NodeId>,
    pub leaf: Option<Leaf>,
    pub identity: Option<Span>,
    pub review: Option<ReviewUnit>,
    pub correspondence: CorrespondenceRole,
    pub decoration: DecorationHint,
    pub owns_decorations: bool,
    pub named: bool,
    pub extra: bool,
    pub missing: bool,
}

/// A parser node whose children are being laid out.
#[derive(Clone, Copy)]
pub struct Frame {
    /// Parser index and the end of its subtree.
    pub raw: usize,
    pub raw_end: usize,
    pub id: NodeId,
    /// First byte that no child has accounted for yet.
    pub cursor: usize,
    pub end: usize,
    pub channel: Option<ContentChannel>,
    pub syntax: Option<SyntaxClass>,
}

/// The walk over the parser nodes: what is drawn, the open nodes, how far stretched extents
/// reach, and the next parser node.
pub struct Walk {
    pub drafts: Seq<Draft>,
    pub frames: Seq<Frame>,
    pub until: usize,
    pub index: int,
}

/// Bytes that no parser node accounts for, as a leaf of their own.
#[verifier::opaque]
pub open spec fn fragment_of(
    language: Language,
    raw: RawTree,
    frame: Frame,
    data: Seq<u8>,
    bytes: Span,
) -> Draft {
    let kind = raw.at(frame.raw as int).kind;
    let channel = match frame.channel {
        Some(channel) => channel,
        None => gap_of(language, kind@, data, bytes),
    };
    Draft {
        kind: "source_fragment",
        slot: None,
        bytes,
        parent: Some(frame.id),
        leaf: Some(
            Leaf {
                syntax: leaf_class(kind@, channel, frame.syntax),
                channel,
                delimiter: false,
                role: LeafRole::Payload,
            },
        ),
        identity: None,
        review: None,
        correspondence: CorrespondenceRole::Transparent,
        decoration: DecorationHint::Nothing,
        owns_decorations: false,
        named: false,
        extra: false,
        missing: false,
    }
}

/// Entries with a chain of ancestors stretched at least to the end.
#[verifier::opaque]
pub open spec fn stretched(
    drafts: Seq<Draft>,
    ancestor: Option<NodeId>,
    end: usize,
) -> Seq<Draft>
    decreases
        match ancestor {
            Some(id) => id + 1,
            None => 0,
        },
{
    match ancestor {
        None => drafts,
        Some(id) => {
            let entry = drafts[id as int];
            let longer = if entry.bytes.end < end {
                drafts.update(
                    id as int,
                    Draft { bytes: Span { start: entry.bytes.start, end }, ..entry },
                )
            } else {
                drafts
            };
            match entry.parent {
                Some(parent) if parent < id => stretched(longer, Some(parent), end),
                _ => longer,
            }
        },
    }
}

/// The entry of a parser node below an open one, or of the root.
#[verifier::opaque]
pub open spec fn entry_of(
    language: Language,
    raw: RawTree,
    classes: Seq<Option<SyntaxClass>>,
    data: Seq<u8>,
    frame: Option<Frame>,
    index: int,
) -> Draft {
    let node = raw.at(index);
    let note = note_of(language, raw, data, frame, index);
    let channel = match (note.channel, frame) {
        (Some(channel), _) => channel,
        (None, Some(frame)) if frame.channel is Some => frame.channel->0,
        _ => ContentChannel::Syntax,
    };
    Draft {
        kind: node.kind,
        slot: node.field,
        bytes: match note.extent {
            Some(extent) => extent,
            None => raw.bytes_of(index),
        },
        parent: match frame {
            Some(frame) => Some(frame.id),
            None => None,
        },
        leaf: if note.prune_children || raw.ends@[index] == index + 1 {
            Some(
                Leaf {
                    syntax: leaf_class(node.kind@, channel, syntax_under(classes, frame, index)),
                    channel,
                    delimiter: !node.named && is_delimiter_kind(node.kind@),
                    role: role_of(node.kind@, node.named),
                },
            )
        } else {
            None
        },
        identity: note.identity,
        review: note.review,
        correspondence: note.correspondence,
        decoration: note.decoration,
        owns_decorations: note.owns_decorations,
        named: node.named,
        extra: node.extra,
        missing: node.missing,
    }
}

/// Decision about a parser node below an open one, or about the root.
pub open spec fn note_of(
    language: Language,
    raw: RawTree,
    data: Seq<u8>,
    frame: Option<Frame>,
    index: int,
) -> NodeAnnotation {
    annotation_of(
        language,
        raw,
        index,
        match frame {
            Some(frame) => Some(raw.at(frame.raw as int).kind),
            None => None,
        },
        data,
    )
}

/// Highlight class of a parser node, or else that of the open node.
pub open spec fn syntax_under(
    classes: Seq<Option<SyntaxClass>>,
    frame: Option<Frame>,
    index: int,
) -> Option<SyntaxClass> {
    match (classes[index], frame) {
        (Some(class), _) => Some(class),
        (None, Some(frame)) => frame.syntax,
        (None, None) => None,
    }
}

/// Close the innermost open node, drawing what its children left out.
#[verifier::opaque]
pub open spec fn closed(walk: Walk, language: Language, raw: RawTree, data: Seq<u8>) -> Walk {
    let frame = walk.frames.last();
    Walk {
        drafts: if frame.cursor < frame.end && frame.cursor >= walk.until {
            walk.drafts.push(
                fragment_of(
                    language,
                    raw,
                    frame,
                    data,
                    Span { start: frame.cursor, end: frame.end },
                ),
            )
        } else {
            walk.drafts
        },
        frames: walk.frames.drop_last(),
        ..walk
    }
}

/// Come to the next parser node: draw the bytes before it, and move past it in the open node.
#[verifier::opaque]
pub open spec fn approached(walk: Walk, language: Language, raw: RawTree, data: Seq<u8>) -> Walk {
    let node = raw.at(walk.index);
    if walk.frames.len() == 0 {
        walk
    } else {
        let frame = walk.frames.last();
        Walk {
            drafts: if node.start > frame.cursor && frame.cursor >= walk.until {
                walk.drafts.push(
                    fragment_of(
                        language,
                        raw,
                        frame,
                        data,
                        Span { start: frame.cursor, end: node.start },
                    ),
                )
            } else {
                walk.drafts
            },
            frames: if node.end > frame.cursor {
                walk.frames.update(
                    walk.frames.len() - 1,
                    Frame { cursor: node.end, ..frame },
                )
            } else {
                walk.frames
            },
            ..walk
        }
    }
}

/// Draw the next parser node below the innermost open one.
#[verifier::opaque]
pub open spec fn entered(
    walk: Walk,
    frame: Option<Frame>,
    language: Language,
    raw: RawTree,
    classes: Seq<Option<SyntaxClass>>,
    data: Seq<u8>,
) -> Walk {
    let draft = entry_of(language, raw, classes, data, frame, walk.index);
    let note = note_of(language, raw, data, frame, walk.index);
    let parser_bytes = raw.bytes_of(walk.index);
    let wide = draft.bytes.end > parser_bytes.end;
    Walk {
        drafts: (if wide {
            stretched(walk.drafts, draft.parent, draft.bytes.end)
        } else {
            walk.drafts
        }).push(draft),
        frames: if draft.leaf is Some {
            walk.frames
        } else {
            walk.frames.push(
                Frame {
                    raw: walk.index as usize,
                    raw_end: raw.ends@[walk.index],
                    id: walk.drafts.len() as usize,
                    cursor: parser_bytes.start,
                    end: parser_bytes.end,
                    channel: match (note.descendant_channel, frame) {
                        (Some(channel), _) => Some(channel),
                        (None, Some(frame)) => frame.channel,
                        (None, None) => None,
                    },
                    syntax: syntax_under(classes, frame, walk.index),
                },
            )
        },
        until: if wide && draft.bytes.end > walk.until {
            draft.bytes.end
        } else {
            walk.until
        },
        index: if draft.leaf is Some {
            raw.ends@[walk.index] as int
        } else {
            walk.index + 1
        },
    }
}

/// Whether the innermost open node holds no more parser nodes.
pub open spec fn is_done(walk: Walk, raw: RawTree) -> bool {
    walk.frames.len() > 0 && (walk.index >= raw.entries@.len() || walk.index
        >= walk.frames.last().raw_end)
}

/// What a walk draws in the end.
#[verifier::opaque]
pub open spec fn finished(
    walk: Walk,
    language: Language,
    raw: RawTree,
    classes: Seq<Option<SyntaxClass>>,
    data: Seq<u8>,
) -> Seq<Draft>
    decreases 2 * (raw.entries@.len() - walk.index) + walk.frames.len(),
    when raw.wf() && 0 <= walk.index <= raw.entries@.len()
{
    proof {
        reveal(closed);
        reveal(approached);
        reveal(entered);
    }
    if is_done(walk, raw) {
        finished(closed(walk, language, raw, data), language, raw, classes, data)
    } else if walk.index >= raw.entries@.len() {
        walk.drafts
    } else {
        let near = approached(walk, language, raw, data);
        if raw.at(walk.index).start < walk.until {
            finished(
                Walk { index: raw.ends@[walk.index] as int, ..near },
                language,
                raw,
                classes,
                data,
            )
        } else {
            let frame = if walk.frames.len() > 0 {
                Some(walk.frames.last())
            } else {
                None
            };
            finished(
                entered(near, frame, language, raw, classes, data),
                language,
                raw,
                classes,
                data,
            )
        }
    }
}

/// The layout of the parser nodes.
pub open spec fn laid_out(
    language: Language,
    raw: RawTree,
    classes: Seq<Option<SyntaxClass>>,
    data: Seq<u8>,
) -> Seq<Draft> {
    finished(
        Walk { drafts: Seq::empty(), frames: Seq::empty(), until: 0, index: 0 },
        language,
        raw,
        classes,
        data,
    )
}

/// Decision that a language makes about one parser node.
#[verifier::opaque]
pub open spec fn annotation_of(
    language: Language,
    raw: RawTree,
    index: int,
    parent_kind: Option<&'static str>,
    data: Seq<u8>,
) -> NodeAnnotation {
    match language {
        Language::Rust => rust::annotation(raw, index, parent_kind, data),
        Language::Html => html::annotation(raw, index, data),
        Language::Css => css::annotation(raw, index, parent_kind, data),
        Language::C => c::annotation(raw, index, parent_kind),
        Language::Lines => crate::frontend::adapter::plain(),
        _ => typescript::annotation(raw, index, parent_kind),
    }
}

/// Grammar symbol of the parser node that an entry's parent stands for.
pub open spec fn parent_kind_of(
    draft: Draft,
    origins: Seq<Option<int>>,
    raw: RawTree,
) -> Option<&'static str> {
    match draft.parent {
        Some(parent) => Some(raw.at(origins[parent as int]->0).kind),
        None => None,
    }
}

/// The entry stands for the parser node, as the language decided.
pub open spec fn entry_drawn(
    draft: Draft,
    at: int,
    parent_kind: Option<&'static str>,
    language: Language,
    raw: RawTree,
    data: Seq<u8>,
) -> bool {
    let node = raw.at(at);
    let note = annotation_of(language, raw, at, parent_kind, data);
    let extent = match note.extent {
        Some(extent) => extent,
        None => raw.bytes_of(at),
    };
    &&& draft.kind == node.kind
    &&& draft.slot == node.field
    &&& draft.named == node.named
    &&& draft.extra == node.extra
    &&& draft.missing == node.missing
    &&& draft.review == note.review
    &&& draft.identity == note.identity
    &&& draft.correspondence == note.correspondence
    &&& draft.decoration == note.decoration
    &&& draft.owns_decorations == note.owns_decorations
    &&& draft.bytes.start == extent.start
    &&& draft.bytes.end >= extent.end
    &&& draft.leaf is Some <==> note.prune_children || raw.ends@[at] == at + 1
    &&& draft.leaf matches Some(leaf) ==> leaf.delimiter == (!node.named && is_delimiter_kind(
        node.kind@,
    )) && (note.channel matches Some(channel) ==> leaf.channel == channel)
}

/// The entry is a stretch of bytes that no parser node accounts for.
pub open spec fn fragment_drawn(draft: Draft) -> bool {
    &&& draft.kind@ == "source_fragment"@
    &&& draft.slot is None
    &&& draft.parent is Some
    &&& draft.leaf matches Some(leaf)
    &&& leaf.role == LeafRole::Payload
    &&& !leaf.delimiter
    &&& draft.review is None
    &&& draft.identity is None
    &&& draft.decoration == DecorationHint::Nothing
    &&& !draft.owns_decorations
    &&& draft.correspondence == CorrespondenceRole::Transparent
    &&& !draft.named && !draft.extra && !draft.missing
}

/// Every entry stands for a parser node or a stretch between them, parser nodes in preorder
/// and below the entry of an enclosing parser node.
#[verifier::opaque]
pub open spec fn drawn(
    drafts: Seq<Draft>,
    origins: Seq<Option<int>>,
    language: Language,
    raw: RawTree,
    data: Seq<u8>,
) -> bool {
    &&& origins.len() == drafts.len()
    &&& drafts_ordered(drafts)
    &&& forall|i: int|
        0 <= i < drafts.len() ==> match #[trigger] origins[i] {
            Some(at) => 0 <= at < raw.entries@.len() && entry_drawn(
                drafts[i],
                at,
                parent_kind_of(drafts[i], origins, raw),
                language,
                raw,
                data,
            ) && (drafts[i].parent matches Some(parent) ==> (
            origins[parent as int] matches Some(outer) && 0 <= outer < at
                < raw.ends@[outer])),
            None => fragment_drawn(drafts[i]) && origins[drafts[i].parent->0 as int] is Some,
        }
    &&& forall|i: int, j: int|
        0 <= i < j < drafts.len() && #[trigger] origins[i] is Some && #[trigger] origins[j] is Some
            ==> origins[i]->0 < origins[j]->0
}

/// The parser node has an entry of its own, is below one laid out as a leaf, or starts under an
/// extent that a language stretched past its node.
#[verifier::opaque]
pub open spec fn accounted(
    drafts: Seq<Draft>,
    origins: Seq<Option<int>>,
    raw: RawTree,
    at: int,
) -> bool {
    ||| exists|i: int| 0 <= i < origins.len() && #[trigger] origins[i] == Some(at)
    ||| exists|i: int|
        0 <= i < origins.len() && (#[trigger] origins[i] matches Some(outer) && outer < at
            < raw.ends@[outer] && drafts[i].leaf is Some)
    ||| exists|i: int, s: int|
        #![trigger origins[i], raw.ends@[s]]
        0 <= i < origins.len() && 0 <= s <= at < raw.ends@[s] && (origins[i] matches Some(outer)
            && raw.at(outer).end < drafts[i].bytes.end && raw.at(s).start < drafts[i].bytes.end)
}

/// A complete layout of the parser nodes.
pub open spec fn is_layout(
    drafts: Seq<Draft>,
    origins: Seq<Option<int>>,
    language: Language,
    raw: RawTree,
    data: Seq<u8>,
) -> bool {
    &&& drawn(drafts, origins, language, raw, data)
    &&& forall|at: int|
        0 <= at < raw.entries@.len() ==> #[trigger] accounted(drafts, origins, raw, at)
}

/// Entries below a parent, among the first entries of a layout.
pub open spec fn child_ids(drafts: Seq<Draft>, parent: int, count: int) -> Seq<NodeId>
    decreases count,
{
    if count <= 0 {
        Seq::empty()
    } else if drafts[count - 1].parent matches Some(id) && id == parent {
        child_ids(drafts, parent, count - 1).push((count - 1) as NodeId)
    } else {
        child_ids(drafts, parent, count - 1)
    }
}

/// The entry is the ancestor itself or below it.
pub open spec fn is_below(drafts: Seq<Draft>, ancestor: int, index: int) -> bool
    decreases index,
{
    index == ancestor || (0 <= index < drafts.len() && (drafts[index].parent matches Some(parent)
        && parent < index && is_below(drafts, ancestor, parent as int)))
}

/// The position past the last entry below an entry.
pub open spec fn is_end(drafts: Seq<Draft>, index: int, end: int) -> bool {
    &&& index < end <= drafts.len()
    &&& is_below(drafts, index, end - 1)
    &&& forall|j: int| end <= j < drafts.len() ==> !#[trigger] is_below(drafts, index, j)
}

/// The closest of an entry and its ancestors that takes decorations.
pub open spec fn enclosing_owner(drafts: Seq<Draft>, from: Option<NodeId>) -> Option<NodeId>
    decreases
        match from {
            Some(id) => id + 1,
            None => 0,
        },
{
    match from {
        None => None,
        Some(id) => if drafts[id as int].owns_decorations {
            Some(id)
        } else {
            match drafts[id as int].parent {
                Some(parent) if parent < id => enclosing_owner(drafts, Some(parent)),
                _ => None,
            }
        },
    }
}

/// The entry takes the decorations before it in its parent.
pub open spec fn takes_decorations(drafts: Seq<Draft>, index: int, parent: NodeId) -> bool {
    drafts[index].parent == Some(parent) && drafts[index].owns_decorations
        && drafts[index].decoration == DecorationHint::Nothing
}

/// The first entry from a position on that takes decorations in a parent.
pub open spec fn following_owner(drafts: Seq<Draft>, parent: NodeId, from: int) -> Option<NodeId>
    decreases drafts.len() - from,
{
    if from >= drafts.len() {
        None
    } else if takes_decorations(drafts, from, parent) {
        Some(from as NodeId)
    } else {
        following_owner(drafts, parent, from + 1)
    }
}

/// The syntax that an entry belongs to where it is a decoration.
pub open spec fn owner_of(drafts: Seq<Draft>, index: int) -> Option<NodeId> {
    match drafts[index].decoration {
        DecorationHint::Nothing => None,
        DecorationHint::EnclosingOwner => enclosing_owner(drafts, drafts[index].parent),
        DecorationHint::FollowingSibling => match drafts[index].parent {
            None => None,
            Some(parent) => following_owner(drafts, parent, index + 1),
        },
    }
}

/// The node holds what the layout says of its entry, and what follows from it: the children, the
/// end of the subtree, the lines, and the syntax that a decoration belongs to.
pub open spec fn completes_entry(
    node: SyntaxNode,
    drafts: Seq<Draft>,
    index: int,
    source: Source,
) -> bool {
    let draft = drafts[index];
    &&& node.children@ == child_ids(drafts, index, drafts.len() as int)
    &&& is_end(drafts, index, node.subtree_end as int)
    &&& source.covers(node.lines, draft.bytes.start as int, draft.bytes.end as int)
    &&& 1 <= node.lines.start <= node.lines.end
    &&& node.decoration_owner == owner_of(drafts, index)
    &&& node.kind == draft.kind
    &&& node.slot == draft.slot
    &&& node.bytes == draft.bytes
    &&& node.parent == draft.parent
    &&& node.leaf == draft.leaf
    &&& node.identity == draft.identity
    &&& node.review == draft.review
    &&& node.correspondence == draft.correspondence
    &&& node.named == draft.named
    &&& node.extra == draft.extra
    &&& node.missing == draft.missing
}

/// The nodes hold what the layout says.
pub open spec fn completes(nodes: Seq<SyntaxNode>, drafts: Seq<Draft>, source: Source) -> bool {
    &&& nodes.len() == drafts.len()
    &&& forall|i: int|
        0 <= i < nodes.len() ==> completes_entry(#[trigger] nodes[i], drafts, i, source)
}

/// Two arenas hold the same nodes.
pub open spec fn same_nodes(left: Seq<SyntaxNode>, right: Seq<SyntaxNode>) -> bool {
    &&& left.len() == right.len()
    &&& forall|i: int|
        #![trigger left[i]]
        #![trigger right[i]]
        0 <= i < left.len() ==> left[i].children@ == right[i].children@ && left[i] == (SyntaxNode {
            children: left[i].children,
            ..right[i]
        })
}

/// A layout has one completion: it decides whether its nodes are an arena, and which.
pub proof fn layout_has_one_completion(
    left: Seq<SyntaxNode>,
    right: Seq<SyntaxNode>,
    drafts: Seq<Draft>,
    source: Source,
)
    requires
        source.wf(),
        completes(left, drafts, source),
        completes(right, drafts, source),
    ensures
        same_nodes(left, right),
        arena_wf(left, source.data().len() as int) == arena_wf(
            right,
            source.data().len() as int,
        ),
{
    assert forall|i: int| 0 <= i < left.len() implies left[i].children@ == right[i].children@
        && #[trigger] left[i] == (SyntaxNode { children: left[i].children, ..right[i] }) by {
        let a = left[i];
        let b = right[i];
        assert(a.subtree_end == b.subtree_end) by {
            if a.subtree_end < b.subtree_end {
                assert(!is_below(drafts, i, b.subtree_end - 1));
            } else if b.subtree_end < a.subtree_end {
                assert(!is_below(drafts, i, a.subtree_end - 1));
            }
        }
        source.lines_covered_once(
            a.lines,
            b.lines,
            drafts[i].bytes.start as int,
            drafts[i].bytes.end as int,
        );
    }
    let byte_len = source.data().len() as int;
    if arena_wf(left, byte_len) {
        lemma_same_arena(left, right, byte_len);
    }
    if arena_wf(right, byte_len) {
        lemma_same_arena(right, left, byte_len);
    }
}

proof fn lemma_same_arena(left: Seq<SyntaxNode>, right: Seq<SyntaxNode>, byte_len: int)
    requires
        same_nodes(left, right),
        arena_wf(left, byte_len),
    ensures
        arena_wf(right, byte_len),
{
    assert forall|i: int| 0 <= i < right.len() implies node_fits(
        #[trigger] right[i],
        i,
        right.len() as int,
        byte_len,
    ) by {
        assert(node_fits(left[i], i, left.len() as int, byte_len));
    }
    assert forall|i: int| 0 <= i < right.len() implies #[trigger] parent_holds(right, i) by {
        assert(parent_holds(left, i));
        assert(left[i].parent == right[i].parent);
    }
    assert forall|i: int| 0 <= i < right.len() implies #[trigger] children_hold(right, i) by {
        assert(children_hold(left, i));
        assert(left[i].children@ == right[i].children@);
    }
}

/// Every entry lies in the text.
pub open spec fn is_inside(drafts: Seq<Draft>, byte_len: int) -> bool {
    forall|i: int|
        0 <= i < drafts.len() ==> (#[trigger] drafts[i]).bytes.start <= drafts[i].bytes.end
            <= byte_len
}

/// The layout leaves the text, or its nodes are no arena.
pub open spec fn is_unsound(drafts: Seq<Draft>, source: Source) -> bool {
    ||| !is_inside(drafts, source.data().len() as int)
    ||| exists|nodes: Seq<SyntaxNode>| #[trigger]
        completes(nodes, drafts, source) && !arena_wf(nodes, source.data().len() as int)
}

/// Every parent precedes its entry.
pub open spec fn drafts_ordered(drafts: Seq<Draft>) -> bool {
    forall|i: int|
        0 <= i < drafts.len() ==> ((#[trigger] drafts[i]).parent matches Some(parent) ==> parent
            < i)
}

fn annotate(
    language: Language,
    raw: &RawTree,
    index: usize,
    parent_kind: Option<&'static str>,
    source: &Source,
) -> (annotation: NodeAnnotation)
    requires
        raw.wf(),
        index < raw.entries@.len(),
    ensures
        annotation == annotation_of(language, *raw, index as int, parent_kind, source.data()),
{
    reveal(annotation_of);
    match language {
        Language::Rust => rust::annotate(raw, index, parent_kind, source),
        Language::Html => html::annotate(raw, index, source),
        Language::Css => css::annotate(raw, index, parent_kind, source),
        Language::C => c::annotate(raw, index, parent_kind),
        Language::Lines => NodeAnnotation::plain(),
        Language::TypeScript | Language::Tsx | Language::JavaScript | Language::Jsx => {
            typescript::annotate(raw, index, parent_kind)
        },
    }
}

/// Channel of bytes that no parser node accounts for: blanks are layout unless the language
/// gives them meaning there.
#[verifier::opaque]
pub open spec fn gap_of(
    language: Language,
    kind: Seq<char>,
    data: Seq<u8>,
    bytes: Span,
) -> ContentChannel {
    blank_channel(
        is_blank_range(data, bytes),
        match language {
            Language::Rust => rust::is_literal_kind(kind),
            Language::Html => html::is_content_gap(kind, breaks_line(data, bytes)),
            Language::Css => css::is_content_kind(kind),
            Language::C => c::is_literal_kind(kind),
            Language::Lines => true,
            _ => typescript::is_literal_kind(kind),
        },
    )
}

fn gap_channel(
    language: Language,
    raw: &RawTree,
    parent: usize,
    source: &Source,
    bytes: Span,
) -> (channel: ContentChannel)
    requires
        parent < raw.entries@.len(),
    ensures
        channel == gap_of(language, raw.at(parent as int).kind@, source.data(), bytes),
{
    reveal(gap_of);
    match language {
        Language::Rust => rust::gap_channel(raw, parent, source, bytes),
        Language::Html => html::gap_channel(raw, parent, source, bytes),
        Language::Css => css::gap_channel(raw, parent, source, bytes),
        Language::C => c::gap_channel(raw, parent, source, bytes),
        Language::Lines => ContentChannel::Syntax,
        Language::TypeScript | Language::Tsx | Language::JavaScript | Language::Jsx => {
            typescript::gap_channel(raw, parent, source, bytes)
        },
    }
}

/// Bytes that the parser left out, as a leaf of their own.
fn push_fragment(
    drafts: &mut Vec<Draft>,
    language: Language,
    raw: &RawTree,
    frame: Frame,
    source: &Source,
    bytes: Span,
)
    requires
        frame.raw < raw.entries@.len(),
        frame.id < old(drafts)@.len(),
        drafts_ordered(old(drafts)@),
    ensures
        final(drafts)@.len() == old(drafts)@.len() + 1,
        drafts_ordered(final(drafts)@),
        final(drafts)@.take(old(drafts)@.len() as int) == old(drafts)@,
        final(drafts)@.last().bytes == bytes,
        final(drafts)@.last().parent == Some(frame.id),
        final(drafts)@.last().leaf is Some,
        final(drafts)@.last().leaf->0.channel == match frame.channel {
            Some(channel) => channel,
            None => gap_of(language, raw.at(frame.raw as int).kind@, source.data(), bytes),
        },
        fragment_drawn(final(drafts)@.last()),
        final(drafts)@.last() == fragment_of(language, *raw, frame, source.data(), bytes),
{
    reveal(fragment_of);
    let channel = match frame.channel {
        Some(channel) => channel,
        None => gap_channel(language, raw, frame.raw, source, bytes),
    };
    let ghost earlier = drafts@;
    drafts.push(
        Draft {
            kind: "source_fragment",
            slot: None,
            bytes,
            parent: Some(frame.id),
            leaf: Some(
                Leaf {
                    syntax: leaf_syntax(raw.kind(frame.raw), channel, frame.syntax),
                    channel,
                    delimiter: false,
                    role: LeafRole::Payload,
                },
            ),
            identity: None,
            review: None,
            correspondence: CorrespondenceRole::Transparent,
            decoration: DecorationHint::Nothing,
            owns_decorations: false,
            named: false,
            extra: false,
            missing: false,
        },
    );
    proof {
        assert(drafts@.take(earlier.len() as int) =~= earlier);
        assert forall|i: int| 0 <= i < drafts@.len() implies ((
        #[trigger] drafts@[i]).parent matches Some(parent) ==> parent < i) by {
            if i < earlier.len() {
                assert(drafts@[i] == earlier[i]);
            }
        }
    }
}

/// Stretch an entry's ancestors over an extent that the grammar cut short.
fn stretch_ancestors(drafts: &mut Vec<Draft>, parent: Option<NodeId>, end: usize)
    requires
        drafts_ordered(old(drafts)@),
        parent matches Some(parent) ==> parent < old(drafts)@.len(),
    ensures
        final(drafts)@.len() == old(drafts)@.len(),
        drafts_ordered(final(drafts)@),
        forall|i: int|
            0 <= i < old(drafts)@.len() ==> (#[trigger] final(drafts)@[i]) == (Draft {
                bytes: final(drafts)@[i].bytes,
                ..old(drafts)@[i]
            }) && final(drafts)@[i].bytes.start == old(drafts)@[i].bytes.start
                && final(drafts)@[i].bytes.end >= old(drafts)@[i].bytes.end,
        final(drafts)@ == stretched(old(drafts)@, parent, end),
{
    let ghost earlier = drafts@;
    let mut ancestor = parent;
    let mut floor: usize = drafts.len();
    proof {
        reveal(stretched);
    }
    while ancestor.is_some()
        invariant
            drafts@.len() == earlier.len(),
            drafts_ordered(earlier),
            ancestor matches Some(id) ==> id < floor,
            floor <= drafts@.len(),
            stretched(earlier, parent, end) == stretched(drafts@, ancestor, end),
            forall|i: int|
                0 <= i < earlier.len() ==> (#[trigger] drafts@[i]) == (Draft {
                    bytes: drafts@[i].bytes,
                    ..earlier[i]
                }) && drafts@[i].bytes.start == earlier[i].bytes.start && drafts@[i].bytes.end
                    >= earlier[i].bytes.end,
        decreases
                if ancestor is Some {
                    floor
                } else {
                    0
                },
    {
        let id = ancestor.unwrap();
        let mut entry = drafts[id];
        assert(drafts@[id as int].parent == earlier[id as int].parent);
        let ghost shorter = drafts@;
        if entry.bytes.end < end {
            entry.bytes.end = end;
        }
        drafts.set(id, entry);
        assert(entry.parent matches Some(next) ==> next < id);
        reveal(stretched);
        assert(entry == shorter[id as int] ==> drafts@ =~= shorter);
        ancestor = entry.parent;
        floor = id;
    }
    proof {
        assert forall|i: int| 0 <= i < drafts@.len() implies ((
        #[trigger] drafts@[i]).parent matches Some(parent) ==> parent < i) by {
            assert(drafts@[i].parent == earlier[i].parent);
        }
    }
}

/// One arena entry for a parser node.
fn node_draft(
    raw: &RawTree,
    index: usize,
    annotation: NodeAnnotation,
    parent: Option<NodeId>,
    bytes: Span,
    is_leaf: bool,
    channel: ContentChannel,
    syntax: Option<SyntaxClass>,
) -> (draft: Draft)
    requires
        index < raw.entries@.len(),
    ensures
        draft.kind == raw.at(index as int).kind,
        draft.slot == raw.at(index as int).field,
        draft.named == raw.at(index as int).named,
        draft.extra == raw.at(index as int).extra,
        draft.missing == raw.at(index as int).missing,
        draft.bytes == bytes,
        draft.parent == parent,
        draft.leaf is Some == is_leaf,
        draft.leaf matches Some(leaf) ==> leaf.role == role_of(
            raw.at(index as int).kind@,
            raw.at(index as int).named,
        ) && leaf.channel == channel && leaf.syntax == leaf_class(
            raw.at(index as int).kind@,
            channel,
            syntax,
        ) && leaf.delimiter == (!raw.at(index as int).named && is_delimiter_kind(
            raw.at(index as int).kind@,
        )),
        draft.review == annotation.review,
        draft.identity == annotation.identity,
        draft.correspondence == annotation.correspondence,
        draft.decoration == annotation.decoration,
        draft.owns_decorations == annotation.owns_decorations,
{
    let node = raw.entries[index].node;
    let leaf = if is_leaf {
        Some(
            Leaf {
                syntax: leaf_syntax(node.kind, channel, syntax),
                channel,
                delimiter: !node.named && delimiter_kind(node.kind),
                role: leaf_role(node.kind, node.named),
            },
        )
    } else {
        None
    };
    Draft {
        kind: node.kind,
        slot: node.field,
        bytes,
        parent,
        leaf,
        identity: annotation.identity,
        review: annotation.review,
        correspondence: annotation.correspondence,
        decoration: annotation.decoration,
        owns_decorations: annotation.owns_decorations,
        named: node.named,
        extra: node.extra,
        missing: node.missing,
    }
}

/// Every entry of a drawing has an origin and a parent before it.
proof fn lemma_drawn_shape(
    drafts: Seq<Draft>,
    origins: Seq<Option<int>>,
    language: Language,
    raw: RawTree,
    data: Seq<u8>,
)
    requires
        drawn(drafts, origins, language, raw, data),
    ensures
        origins.len() == drafts.len(),
        drafts_ordered(drafts),
{
    reveal(drawn);
}

/// Adding an entry keeps what was drawn.
proof fn lemma_drawn_push(
    drafts: Seq<Draft>,
    origins: Seq<Option<int>>,
    language: Language,
    raw: RawTree,
    data: Seq<u8>,
    draft: Draft,
    origin: Option<int>,
)
    requires
        drawn(drafts, origins, language, raw, data),
        draft.parent matches Some(parent) ==> parent < drafts.len(),
        match origin {
            Some(at) => 0 <= at < raw.entries@.len() && entry_drawn(
                draft,
                at,
                parent_kind_of(draft, origins, raw),
                language,
                raw,
                data,
            ) && (draft.parent matches Some(parent) ==> (
            origins[parent as int] matches Some(outer) && 0 <= outer < at
                < raw.ends@[outer])) && forall|i: int|
                0 <= i < origins.len() ==> (#[trigger] origins[i] matches Some(earlier) ==> earlier
                    < at),
            None => fragment_drawn(draft) && origins[draft.parent->0 as int] is Some,
        },
    ensures
        drawn(drafts.push(draft), origins.push(origin), language, raw, data),
{
    reveal(drawn);
    let later = drafts.push(draft);
    let sources = origins.push(origin);
    assert forall|i: int| 0 <= i < later.len() implies ((
    #[trigger] later[i]).parent matches Some(parent) ==> parent < i) by {
        if i < drafts.len() {
            assert(later[i] == drafts[i]);
        }
    }
    assert forall|i: int| 0 <= i < later.len() implies match #[trigger] sources[i] {
        Some(at) => 0 <= at < raw.entries@.len() && entry_drawn(
            later[i],
            at,
            parent_kind_of(later[i], sources, raw),
            language,
            raw,
            data,
        ) && (later[i].parent matches Some(parent) ==> (
        sources[parent as int] matches Some(outer) && 0 <= outer < at < raw.ends@[outer])),
        None => fragment_drawn(later[i]) && sources[later[i].parent->0 as int] is Some,
    } by {
        if i < drafts.len() {
            assert(later[i] == drafts[i] && sources[i] == origins[i]);
            assert(drafts[i].parent matches Some(parent) ==> parent < i);
        }
    }
    assert forall|i: int, j: int|
        0 <= i < j < later.len() && #[trigger] sources[i] is Some
            && #[trigger] sources[j] is Some implies sources[i]->0 < sources[j]->0 by {
        assert(sources[i] == origins[i]);
        if j < drafts.len() {
            assert(sources[j] == origins[j]);
        }
    }
}

/// Stretching entries keeps what was drawn.
proof fn lemma_drawn_stretch(
    earlier: Seq<Draft>,
    later: Seq<Draft>,
    origins: Seq<Option<int>>,
    language: Language,
    raw: RawTree,
    data: Seq<u8>,
)
    requires
        drawn(earlier, origins, language, raw, data),
        later.len() == earlier.len(),
        drafts_ordered(later),
        forall|i: int|
            0 <= i < earlier.len() ==> (#[trigger] later[i]) == (Draft {
                bytes: later[i].bytes,
                ..earlier[i]
            }) && later[i].bytes.start == earlier[i].bytes.start && later[i].bytes.end
                >= earlier[i].bytes.end,
    ensures
        drawn(later, origins, language, raw, data),
{
    reveal(drawn);
    assert forall|i: int| 0 <= i < later.len() implies match #[trigger] origins[i] {
        Some(at) => 0 <= at < raw.entries@.len() && entry_drawn(
            later[i],
            at,
            parent_kind_of(later[i], origins, raw),
            language,
            raw,
            data,
        ) && (later[i].parent matches Some(parent) ==> (
        origins[parent as int] matches Some(outer) && 0 <= outer < at < raw.ends@[outer])),
        None => fragment_drawn(later[i]) && origins[later[i].parent->0 as int] is Some,
    } by {
        assert(later[i] == (Draft { bytes: later[i].bytes, ..earlier[i] }));
    }
}

/// Later entries and wider extents keep parser nodes accounted for.
proof fn lemma_accounted_grows(
    earlier: Seq<Draft>,
    earlier_origins: Seq<Option<int>>,
    later: Seq<Draft>,
    later_origins: Seq<Option<int>>,
    raw: RawTree,
    end: int,
)
    requires
        earlier.len() == earlier_origins.len(),
        later.len() == later_origins.len(),
        earlier.len() <= later.len(),
        forall|i: int|
            0 <= i < earlier.len() ==> later_origins[i] == (#[trigger] earlier_origins[i])
                && later[i].leaf == earlier[i].leaf && later[i].bytes.end >= earlier[i].bytes.end,
        forall|at: int| 0 <= at < end ==> #[trigger] accounted(earlier, earlier_origins, raw, at),
    ensures
        forall|at: int| 0 <= at < end ==> #[trigger] accounted(later, later_origins, raw, at),
{
    reveal(accounted);
    assert forall|at: int| 0 <= at < end implies #[trigger] accounted(
        later,
        later_origins,
        raw,
        at,
    ) by {
        assert(accounted(earlier, earlier_origins, raw, at));
        if exists|i: int| 0 <= i < earlier_origins.len() && #[trigger] earlier_origins[i] == Some(
            at,
        ) {
            let i = choose|i: int|
                0 <= i < earlier_origins.len() && #[trigger] earlier_origins[i] == Some(at);
            assert(later_origins[i] == Some(at));
        } else if exists|i: int|
            0 <= i < earlier_origins.len() && (#[trigger] earlier_origins[i] matches Some(outer)
                && outer < at < raw.ends@[outer] && earlier[i].leaf is Some) {
            let i = choose|i: int|
                0 <= i < earlier_origins.len() && (#[trigger] earlier_origins[i] matches Some(outer)
                    && outer < at < raw.ends@[outer] && earlier[i].leaf is Some);
            assert(later_origins[i] == earlier_origins[i]);
        } else {
            let (i, s) = choose|i: int, s: int|
                #![trigger earlier_origins[i], raw.ends@[s]]
                0 <= i < earlier_origins.len() && 0 <= s <= at < raw.ends@[s] && (
                earlier_origins[i] matches Some(outer) && raw.at(outer).end < earlier[i].bytes.end
                    && raw.at(s).start < earlier[i].bytes.end);
            assert(later_origins[i] == earlier_origins[i]);
            assert(raw.ends@[s] > at);
        }
    }
}

/// Some entry reaches past its parser node, at least to the position.
#[verifier::opaque]
spec fn reaches(
    drafts: Seq<Draft>,
    origins: Seq<Option<int>>,
    raw: RawTree,
    until: int,
) -> bool {
    exists|i: int|
        0 <= i < origins.len() && (#[trigger] origins[i] matches Some(outer) && raw.at(outer).end
            < drafts[i].bytes.end && drafts[i].bytes.end >= until)
}

/// Frames name the entries of enclosing parser nodes.
spec fn frames_open(
    frames: Seq<Frame>,
    origins: Seq<Option<int>>,
    raw: RawTree,
    index: int,
) -> bool {
    forall|k: int|
        0 <= k < frames.len() ==> (#[trigger] frames[k]).raw < raw.entries@.len() && frames[k].id
            < origins.len() && origins[frames[k].id as int] == Some(frames[k].raw as int)
            && frames[k].raw_end == raw.ends@[frames[k].raw as int] && frames[k].raw < index
}

/// Close the innermost frame, filling what its children left out.
fn close_frame(
    drafts: &mut Vec<Draft>,
    frame: Frame,
    consumed_until: usize,
    language: Language,
    raw: &RawTree,
    source: &Source,
    Ghost(origins): Ghost<Seq<Option<int>>>,
) -> (later: Ghost<Seq<Option<int>>>)
    requires
        drawn(old(drafts)@, origins, language, *raw, source.data()),
        frame.raw < raw.entries@.len(),
        frame.id < old(drafts)@.len(),
        origins[frame.id as int] is Some,
    ensures
        drawn(final(drafts)@, later@, language, *raw, source.data()),
        extends_drawing(old(drafts)@, origins, final(drafts)@, later@),
        forall|i: int|
            origins.len() <= i < later@.len() ==> (#[trigger] later@[i]) is None,
        final(drafts)@ == (if frame.cursor < frame.end && frame.cursor >= consumed_until {
            old(drafts)@.push(
                fragment_of(
                    language,
                    *raw,
                    frame,
                    source.data(),
                    Span { start: frame.cursor, end: frame.end },
                ),
            )
        } else {
            old(drafts)@
        }),
{
    proof {
        lemma_drawn_shape(drafts@, origins, language, *raw, source.data());
    }
    if frame.cursor < frame.end && frame.cursor >= consumed_until {
        let bytes = Span { start: frame.cursor, end: frame.end };
        fill_gap(drafts, frame, language, raw, source, bytes, Ghost(origins))
    } else {
        Ghost(origins)
    }
}

/// The later drawing starts with the earlier one.
spec fn extends_drawing(
    earlier: Seq<Draft>,
    earlier_origins: Seq<Option<int>>,
    later: Seq<Draft>,
    later_origins: Seq<Option<int>>,
) -> bool {
    &&& earlier.len() <= later.len()
    &&& later_origins.len() == later.len()
    &&& forall|i: int|
        0 <= i < earlier.len() ==> (#[trigger] later_origins[i]) == earlier_origins[i] && later[i]
            == earlier[i]
}

/// Add a stretch of bytes that no parser node accounts for.
fn fill_gap(
    drafts: &mut Vec<Draft>,
    frame: Frame,
    language: Language,
    raw: &RawTree,
    source: &Source,
    bytes: Span,
    Ghost(origins): Ghost<Seq<Option<int>>>,
) -> (later: Ghost<Seq<Option<int>>>)
    requires
        drawn(old(drafts)@, origins, language, *raw, source.data()),
        frame.raw < raw.entries@.len(),
        frame.id < old(drafts)@.len(),
        origins[frame.id as int] is Some,
    ensures
        drawn(final(drafts)@, later@, language, *raw, source.data()),
        later@ == origins.push(None),
        extends_drawing(old(drafts)@, origins, final(drafts)@, later@),
        final(drafts)@ == old(drafts)@.push(
            fragment_of(language, *raw, frame, source.data(), bytes),
        ),
{
    proof {
        lemma_drawn_shape(drafts@, origins, language, *raw, source.data());
    }
    let ghost earlier = drafts@;
    push_fragment(drafts, language, raw, frame, source, bytes);
    proof {
        let draft = drafts@.last();
        assert(drafts@ =~= earlier.push(draft)) by {
            assert forall|i: int| 0 <= i < earlier.len() implies drafts@[i] == earlier[i] by {
                assert(drafts@.take(earlier.len() as int)[i] == drafts@[i]);
            }
        }
        lemma_drawn_push(earlier, origins, language, *raw, source.data(), draft, None);
    }
    Ghost(origins.push(None))
}

/// A new entry accounts for its parser node, and as a leaf for all that the node holds.
proof fn lemma_node_accounts(
    before: Seq<Draft>,
    origins: Seq<Option<int>>,
    after: Seq<Draft>,
    raw: RawTree,
    index: int,
    until: int,
    later: Seq<Option<int>>,
)
    requires
        before.len() == origins.len(),
        after.len() == before.len() + 1,
        later == origins.push(Some(index)),
        forall|i: int|
            0 <= i < before.len() ==> later[i] == (#[trigger] origins[i])
                && after[i].leaf == before[i].leaf && after[i].bytes.end >= before[i].bytes.end,
        forall|at: int| 0 <= at < index ==> #[trigger] accounted(before, origins, raw, at),
        until > 0 ==> reaches(before, origins, raw, until),
    ensures
        forall|at: int|
            0 <= at < index + 1 ==> #[trigger] accounted(
                after,
                later,
                raw,
                at,
            ),
        after.last().leaf is Some ==> forall|at: int|
            0 <= at < raw.ends@[index] ==> #[trigger] accounted(
                after,
                later,
                raw,
                at,
            ),
        until > 0 ==> reaches(after, later, raw, until),
        after.last().bytes.end > raw.at(index).end ==> reaches(
            after,
            later,
            raw,
            after.last().bytes.end as int,
        ),
{
    let id = before.len() as int;
    lemma_accounted_grows(before, origins, after, later, raw, index);
    if until > 0 {
        lemma_reaches_grows(before, origins, after, later, raw, until);
    }
    reveal(accounted);
    reveal(reaches);
    assert(later[id] == Some(index));
    assert(accounted(after, later, raw, index));
    if after.last().leaf is Some {
        assert forall|at: int| 0 <= at < raw.ends@[index] implies #[trigger] accounted(
            after,
            later,
            raw,
            at,
        ) by {
            if at > index {
                assert(later[id] == Some(index));
            }
        }
    }
}

/// Add the entry of a parser node, stretching its ancestors over a wider extent.
#[verifier::rlimit(40)]
fn draw_node(
    drafts: &mut Vec<Draft>,
    draft: Draft,
    index: usize,
    language: Language,
    raw: &RawTree,
    source: &Source,
    until: usize,
    Ghost(origins): Ghost<Seq<Option<int>>>,
) -> (later: Ghost<Seq<Option<int>>>)
    requires
        raw.wf(),
        index < raw.entries@.len(),
        drawn(old(drafts)@, origins, language, *raw, source.data()),
        forall|i: int|
            0 <= i < origins.len() ==> (#[trigger] origins[i] matches Some(at) ==> at < index),
        forall|at: int|
            0 <= at < index ==> #[trigger] accounted(old(drafts)@, origins, *raw, at),
        until > 0 ==> reaches(old(drafts)@, origins, *raw, until as int),
        draft.parent matches Some(parent) ==> parent < old(drafts)@.len() && (
        origins[parent as int] matches Some(outer) && 0 <= outer < index < raw.ends@[outer]),
        entry_drawn(
            draft,
            index as int,
            parent_kind_of(draft, origins, *raw),
            language,
            *raw,
            source.data(),
        ),
    ensures
        later@ == origins.push(Some(index as int)),
        final(drafts)@ == (if draft.bytes.end > raw.at(index as int).end {
            stretched(old(drafts)@, draft.parent, draft.bytes.end)
        } else {
            old(drafts)@
        }).push(draft),
        drawn(final(drafts)@, later@, language, *raw, source.data()),
        forall|at: int|
            0 <= at < index + 1 ==> #[trigger] accounted(final(drafts)@, later@, *raw, at),
        draft.leaf is Some ==> forall|at: int|
            0 <= at < raw.ends@[index as int] ==> #[trigger] accounted(
                final(drafts)@,
                later@,
                *raw,
                at,
            ),
        until > 0 ==> reaches(final(drafts)@, later@, *raw, until as int),
        draft.bytes.end > raw.at(index as int).end ==> reaches(
            final(drafts)@,
            later@,
            *raw,
            draft.bytes.end as int,
        ),
{
    proof {
        lemma_drawn_shape(drafts@, origins, language, *raw, source.data());
    }
    let ghost before = drafts@;
    let ghost later = origins.push(Some(index as int));
    if draft.bytes.end > raw.entries[index].node.end {
        stretch_ancestors(drafts, draft.parent, draft.bytes.end);
        proof {
            lemma_drawn_stretch(before, drafts@, origins, language, *raw, source.data());
        }
    }
    let ghost earlier = drafts@;
    drafts.push(draft);
    proof {
        lemma_drawn_push(
            earlier,
            origins,
            language,
            *raw,
            source.data(),
            draft,
            Some(index as int),
        );
        assert(drafts@ =~= earlier.push(draft));
        assert forall|i: int| 0 <= i < before.len() implies later[i] == (#[trigger] origins[i])
            && drafts@[i].leaf == before[i].leaf && drafts@[i].bytes.end >= before[i].bytes.end by {
            assert(drafts@[i] == earlier[i]);
        }
        assert(drafts@[before.len() as int] == draft);
        lemma_node_accounts(before, origins, drafts@, *raw, index as int, until as int, later);
    }
    Ghost(origins.push(Some(index as int)))
}

/// How far the walk over the parser nodes has come.
struct Progress {
    drafts: Vec<Draft>,
    frames: Vec<Frame>,
    until: usize,
    index: usize,
}

impl Progress {
    spec fn walk(self) -> Walk {
        Walk {
            drafts: self.drafts@,
            frames: self.frames@,
            until: self.until,
            index: self.index as int,
        }
    }
}

/// What is drawn accounts for the parser nodes that the walk has passed.
#[verifier::opaque]
spec fn walks(
    walk: Walk,
    origins: Seq<Option<int>>,
    language: Language,
    raw: RawTree,
    data: Seq<u8>,
) -> bool {
    &&& drawn(walk.drafts, origins, language, raw, data)
    &&& forall|i: int|
        0 <= i < origins.len() ==> (#[trigger] origins[i] matches Some(at) ==> at < walk.index)
    &&& forall|at: int|
        0 <= at < walk.index ==> #[trigger] accounted(walk.drafts, origins, raw, at)
    &&& walk.until > 0 ==> reaches(walk.drafts, origins, raw, walk.until as int)
    &&& frames_open(walk.frames, origins, raw, walk.index)
}

/// Close the innermost open node.
fn close_innermost(
    at: Progress,
    language: Language,
    raw: &RawTree,
    source: &Source,
    Ghost(origins): Ghost<Seq<Option<int>>>,
) -> (next: (Progress, Ghost<Seq<Option<int>>>))
    requires
        raw.wf(),
        at.index <= raw.entries@.len(),
        walks(at.walk(), origins, language, *raw, source.data()),
        at.frames@.len() > 0,
    ensures
        next.0.walk() == closed(at.walk(), language, *raw, source.data()),
        walks(next.0.walk(), next.1@, language, *raw, source.data()),
        next.0.index == at.index,
        next.0.frames@.len() == at.frames@.len() - 1,
{
    let ghost walk = at.walk();
    let Progress { mut drafts, mut frames, until, index } = at;
    let frame = frames[frames.len() - 1];
    proof {
        reveal(walks);
        lemma_drawn_shape(walk.drafts, origins, language, *raw, source.data());
        assert(frames_open(walk.frames, origins, *raw, index as int));
        assert(walk.frames[walk.frames.len() - 1] == frame);
    }
    let popped = frames.pop();
    let later = close_frame(&mut drafts, frame, until, language, raw, source, Ghost(origins));
    let next = Progress { drafts, frames, until, index };
    proof {
        lemma_walk_grows(
            walk.drafts,
            origins,
            drafts@,
            later@,
            *raw,
            index as int,
            until as int,
        );
        assert(walk.frames.drop_last() =~= frames@);
        assert(frames_open(frames@, origins, *raw, index as int));
        lemma_frames_grow(frames@, origins, later@, *raw, index as int);
        assert(next.walk() == closed(walk, language, *raw, source.data())) by {
            reveal(closed);
        }
    }
    (next, later)
}

/// Draw the bytes before the next parser node and move past it in the innermost open node.
fn approach(
    at: Progress,
    language: Language,
    raw: &RawTree,
    source: &Source,
    Ghost(origins): Ghost<Seq<Option<int>>>,
) -> (next: (Progress, Ghost<Seq<Option<int>>>))
    requires
        raw.wf(),
        at.index < raw.entries@.len(),
        walks(at.walk(), origins, language, *raw, source.data()),
    ensures
        next.0.walk() == approached(at.walk(), language, *raw, source.data()),
        walks(next.0.walk(), next.1@, language, *raw, source.data()),
        next.0.index == at.index,
        next.0.until == at.until,
        next.0.frames@.len() == at.frames@.len(),
        at.frames@.len() > 0 ==> next.0.frames@.last() == (Frame {
            cursor: next.0.frames@.last().cursor,
            ..at.frames@.last()
        }),
{
    let mut at = at;
    let ghost walk = at.walk();
    let node = raw.entries[at.index].node;
    let depth = at.frames.len();
    reveal(walks);
    reveal(approached);
    proof {
        lemma_drawn_shape(walk.drafts, origins, language, *raw, source.data());
    }
    if depth == 0 {
        return (at, Ghost(origins));
    }
    let frame = at.frames[depth - 1];
    let mut later: Ghost<Seq<Option<int>>> = Ghost(origins);
    if node.start > frame.cursor && frame.cursor >= at.until {
        let bytes = Span { start: frame.cursor, end: node.start };
        later = fill_gap(&mut at.drafts, frame, language, raw, source, bytes, Ghost(origins));
    }
    if node.end > frame.cursor {
        let mut advanced = frame;
        advanced.cursor = node.end;
        at.frames.set(depth - 1, advanced);
    }
    proof {
        lemma_walk_grows(
            walk.drafts,
            origins,
            at.drafts@,
            later@,
            *raw,
            at.index as int,
            at.until as int,
        );
        lemma_frames_grow(at.frames@, origins, later@, *raw, at.index as int);
        let near = approached(walk, language, *raw, source.data());
        assert(near.frames =~= at.frames@);
        assert(near.drafts =~= at.drafts@);
    }
    (at, later)
}

/// Open nodes stay open in a longer drawing.
proof fn lemma_frames_grow(
    frames: Seq<Frame>,
    earlier: Seq<Option<int>>,
    later: Seq<Option<int>>,
    raw: RawTree,
    index: int,
)
    requires
        frames_open(frames, earlier, raw, index),
        earlier.len() <= later.len(),
        forall|i: int| 0 <= i < earlier.len() ==> (#[trigger] later[i]) == earlier[i],
    ensures
        frames_open(frames, later, raw, index),
{
    assert forall|k: int| 0 <= k < frames.len() implies (#[trigger] frames[k]).raw
        < raw.entries@.len() && frames[k].id < later.len() && later[frames[k].id as int] == Some(
        frames[k].raw as int,
    ) && frames[k].raw_end == raw.ends@[frames[k].raw as int] && frames[k].raw < index by {
        assert(later[frames[k].id as int] == earlier[frames[k].id as int]);
    }
}

/// Facts that the next parser node takes from the innermost open node.
fn innermost(frames: &Vec<Frame>) -> (open: Option<Frame>)
    ensures
        open == (if frames@.len() > 0 {
            Some(frames@.last())
        } else {
            None
        }),
{
    if frames.len() > 0 {
        Some(frames[frames.len() - 1])
    } else {
        None
    }
}

/// The entry of the next parser node, and the frame that it opens.
fn drawn_entry(
    index: usize,
    id: NodeId,
    open: Option<Frame>,
    language: Language,
    raw: &RawTree,
    classes: &Vec<Option<SyntaxClass>>,
    source: &Source,
) -> (entry: (Draft, Frame))
    requires
        raw.wf(),
        index < raw.entries@.len(),
        classes@.len() == raw.entries@.len(),
        open matches Some(frame) ==> frame.raw < raw.entries@.len(),
    ensures
        entry.0 == entry_of(language, *raw, classes@, source.data(), open, index as int),
        entry_drawn(
            entry.0,
            index as int,
            match open {
                Some(frame) => Some(raw.at(frame.raw as int).kind),
                None => None,
            },
            language,
            *raw,
            source.data(),
        ),
        entry.0.parent == (match open {
            Some(frame) => Some(frame.id),
            None => None,
        }),
        entry.1 == (Frame {
            raw: index,
            raw_end: raw.ends@[index as int],
            id,
            cursor: raw.bytes_of(index as int).start,
            end: raw.bytes_of(index as int).end,
            channel: match (
                note_of(language, *raw, source.data(), open, index as int).descendant_channel,
                open,
            ) {
                (Some(channel), _) => Some(channel),
                (None, Some(frame)) => frame.channel,
                (None, None) => None,
            },
            syntax: syntax_under(classes@, open, index as int),
        }),
{
    let parent = match open {
        Some(frame) => Some(frame.id),
        None => None,
    };
    let parent_kind = match open {
        Some(frame) => Some(raw.kind(frame.raw)),
        None => None,
    };
    let inherited_channel = match open {
        Some(frame) => frame.channel,
        None => None,
    };
    let inherited_syntax = match open {
        Some(frame) => frame.syntax,
        None => None,
    };
    let annotation = annotate(language, raw, index, parent_kind, source);
    let channel = match annotation.channel {
        Some(channel) => channel,
        None => match inherited_channel {
            Some(channel) => channel,
            None => ContentChannel::Syntax,
        },
    };
    let child_channel = match annotation.descendant_channel {
        Some(channel) => Some(channel),
        None => inherited_channel,
    };
    let syntax = match classes[index] {
        Some(class) => Some(class),
        None => inherited_syntax,
    };
    let parser_bytes = raw.bytes(index);
    let bytes = match annotation.extent {
        Some(extent) => extent,
        None => parser_bytes,
    };
    let is_leaf = annotation.prune_children || raw.ends[index] == index + 1;
    reveal(entry_of);
    let draft = node_draft(raw, index, annotation, parent, bytes, is_leaf, channel, syntax);
    (
        draft,
        Frame {
            raw: index,
            raw_end: raw.ends[index],
            id,
            cursor: parser_bytes.start,
            end: parser_bytes.end,
            channel: child_channel,
            syntax,
        },
    )
}

/// An entry for the next parser node keeps what the walk has established.
proof fn lemma_entered(
    before: Walk,
    origins: Seq<Option<int>>,
    after: Walk,
    frame: Frame,
    language: Language,
    raw: RawTree,
    data: Seq<u8>,
)
    requires
        walks(before, origins, language, raw, data),
        before.drafts.len() == origins.len(),
        before.index < after.index,
        before.index < raw.entries@.len(),
        drawn(after.drafts, origins.push(Some(before.index)), language, raw, data),
        forall|at: int|
            0 <= at < after.index ==> #[trigger] accounted(
                after.drafts,
                origins.push(Some(before.index)),
                raw,
                at,
            ),
        after.until > 0 ==> reaches(
            after.drafts,
            origins.push(Some(before.index)),
            raw,
            after.until as int,
        ),
        after.frames == before.frames || (after.frames == before.frames.push(frame) && frame.raw
            == before.index && frame.raw_end == raw.ends@[before.index] && frame.id
            == origins.len()),
    ensures
        walks(after, origins.push(Some(before.index)), language, raw, data),
{
    reveal(walks);
    let later = origins.push(Some(before.index));
    assert forall|i: int| 0 <= i < later.len() implies (#[trigger] later[i] matches Some(from)
        ==> from < after.index) by {
        if i < origins.len() {
            assert(later[i] == origins[i]);
        }
    }
    assert forall|k: int| 0 <= k < after.frames.len() implies (#[trigger] after.frames[k]).raw
        < raw.entries@.len() && after.frames[k].id < later.len() && later[after.frames[k].id as int]
        == Some(after.frames[k].raw as int) && after.frames[k].raw_end
        == raw.ends@[after.frames[k].raw as int] && after.frames[k].raw < after.index by {
        if k < before.frames.len() {
            assert(after.frames[k] == before.frames[k]);
            assert(later[before.frames[k].id as int] == origins[before.frames[k].id as int]);
        }
    }
}

/// The walk past an entry.
proof fn lemma_is_entered(
    before: Walk,
    after: Walk,
    open: Option<Frame>,
    draft: Draft,
    frame: Frame,
    language: Language,
    raw: RawTree,
    classes: Seq<Option<SyntaxClass>>,
    data: Seq<u8>,
)
    requires
        raw.wf(),
        0 <= before.index < raw.entries@.len(),
        draft == entry_of(language, raw, classes, data, open, before.index),
        after.drafts == (if draft.bytes.end > raw.at(before.index).end {
            stretched(before.drafts, draft.parent, draft.bytes.end)
        } else {
            before.drafts
        }).push(draft),
        after.until == (if draft.bytes.end > raw.at(before.index).end && draft.bytes.end
            > before.until {
            draft.bytes.end
        } else {
            before.until
        }),
        after.frames == (if draft.leaf is Some {
            before.frames
        } else {
            before.frames.push(frame)
        }),
        after.index == (if draft.leaf is Some {
            raw.ends@[before.index] as int
        } else {
            before.index + 1
        }),
        frame == (Frame {
            raw: before.index as usize,
            raw_end: raw.ends@[before.index],
            id: before.drafts.len() as usize,
            cursor: raw.bytes_of(before.index).start,
            end: raw.bytes_of(before.index).end,
            channel: match (
                note_of(language, raw, data, open, before.index).descendant_channel,
                open,
            ) {
                (Some(channel), _) => Some(channel),
                (None, Some(frame)) => frame.channel,
                (None, None) => None,
            },
            syntax: syntax_under(classes, open, before.index),
        }),
    ensures
        after == entered(before, open, language, raw, classes, data),
{
    reveal(entered);
}

/// Draw the next parser node below the innermost open one.
#[verifier::rlimit(40)]
fn enter(
    at: Progress,
    open: Option<Frame>,
    language: Language,
    raw: &RawTree,
    classes: &Vec<Option<SyntaxClass>>,
    source: &Source,
    Ghost(origins): Ghost<Seq<Option<int>>>,
) -> (next: (Progress, Ghost<Seq<Option<int>>>))
    requires
        raw.wf(),
        classes@.len() == raw.entries@.len(),
        at.index < raw.entries@.len(),
        walks(at.walk(), origins, language, *raw, source.data()),
        match open {
            Some(frame) => at.frames@.len() > 0 && at.frames@.last() == (Frame {
                cursor: at.frames@.last().cursor,
                ..frame
            }) && at.index < frame.raw_end,
            None => at.frames@.len() == 0,
        },
    ensures
        next.0.walk() == entered(at.walk(), open, language, *raw, classes@, source.data()),
        walks(next.0.walk(), next.1@, language, *raw, source.data()),
        next.0.index <= raw.entries@.len(),
        2 * next.0.index - next.0.frames@.len() > 2 * at.index - at.frames@.len(),
{
    let ghost walk = at.walk();
    let Progress { mut drafts, mut frames, mut until, mut index } = at;
    let id = drafts.len();
    proof {
        reveal(walks);
        lemma_drawn_shape(walk.drafts, origins, language, *raw, source.data());
        if open is Some {
            assert(walk.frames[walk.frames.len() - 1].raw < raw.entries@.len());
        }
    }
    let (draft, frame) = drawn_entry(index, id, open, language, raw, classes, source);
    let later = draw_node(
        &mut drafts,
        draft,
        index,
        language,
        raw,
        source,
        until,
        Ghost(origins),
    );
    if draft.bytes.end > raw.entries[index].node.end && draft.bytes.end > until {
        until = draft.bytes.end;
    }
    if draft.leaf.is_some() {
        index = raw.ends[index];
    } else {
        frames.push(frame);
        index += 1;
    }
    let next = Progress { drafts, frames, until, index };
    proof {
        lemma_is_entered(walk, next.walk(), open, draft, frame, language, *raw, classes@, source.data());
        lemma_entered(walk, origins, next.walk(), frame, language, *raw, source.data());
    }
    (next, later)
}

/// Pass over a parser node that starts under an extent that a language stretched past its node.
fn pass_over(
    at: Progress,
    language: Language,
    raw: &RawTree,
    Ghost(data): Ghost<Seq<u8>>,
    Ghost(origins): Ghost<Seq<Option<int>>>,
) -> (next: Progress)
    requires
        raw.wf(),
        at.index < raw.entries@.len(),
        raw.at(at.index as int).start < at.until,
        walks(at.walk(), origins, language, *raw, data),
    ensures
        next.walk() == (Walk { index: raw.ends@[at.index as int] as int, ..at.walk() }),
        walks(next.walk(), origins, language, *raw, data),
        next.frames@.len() == at.frames@.len(),
        at.index < next.index <= raw.entries@.len(),
{
    let mut at = at;
    proof {
        reveal(walks);
        lemma_swallowed(at.drafts@, origins, *raw, at.index as int, at.until as int);
    }
    at.index = raw.ends[at.index];
    at
}

/// Walk the parser nodes once in preorder, filling every gap with a fragment.
fn lay_out(
    language: Language,
    raw: &RawTree,
    classes: &Vec<Option<SyntaxClass>>,
    source: &Source,
) -> (laid: (Vec<Draft>, Ghost<Seq<Option<int>>>))
    requires
        raw.wf(),
        classes@.len() == raw.entries@.len(),
    ensures
        is_layout(laid.0@, laid.1@, language, *raw, source.data()),
        laid.0@ == laid_out(language, *raw, classes@, source.data()),
{
    let count = raw.count();
    let ghost data = source.data();
    let mut at = Progress { drafts: Vec::new(), frames: Vec::new(), until: 0, index: 0 };
    let mut origins: Ghost<Seq<Option<int>>> = Ghost(Seq::empty());
    assert(walks(at.walk(), origins@, language, *raw, data)) by {
        reveal(walks);
        reveal(drawn);
    }
    while at.index < count || at.frames.len() > 0
        invariant
            raw.wf(),
            data == source.data(),
            count == raw.entries@.len(),
            classes@.len() == count,
            at.index <= count,
            walks(at.walk(), origins@, language, *raw, data),
            laid_out(language, *raw, classes@, data) == finished(
                at.walk(),
                language,
                *raw,
                classes@,
                data,
            ),
        decreases 2 * (count - at.index) + at.frames@.len(),
    {
        let ghost walk = at.walk();
        let open = innermost(&at.frames);
        let done = match open {
            Some(frame) => at.index >= count || at.index >= frame.raw_end,
            None => false,
        };
        if done {
            proof {
                lemma_finish_closed(walk, language, *raw, classes@, data);
            }
            let (next, later) = close_innermost(at, language, raw, source, Ghost(origins@));
            at = next;
            origins = later;
        } else {
            let (near, later) = approach(at, language, raw, source, Ghost(origins@));
            origins = later;
            if raw.entries[near.index].node.start < near.until {
                proof {
                    lemma_finish_swallowed(walk, language, *raw, classes@, data);
                }
                at = pass_over(near, language, raw, Ghost(data), Ghost(origins@));
            } else {
                proof {
                    lemma_finish_entered(walk, language, *raw, classes@, data);
                }
                let (next, later) = enter(
                    near,
                    open,
                    language,
                    raw,
                    classes,
                    source,
                    Ghost(origins@),
                );
                at = next;
                origins = later;
            }
        }
    }
    proof {
        reveal(finished);
        reveal(walks);
    }
    (at.drafts, origins)
}

proof fn lemma_finish_closed(
    walk: Walk,
    language: Language,
    raw: RawTree,
    classes: Seq<Option<SyntaxClass>>,
    data: Seq<u8>,
)
    requires
        raw.wf(),
        0 <= walk.index <= raw.entries@.len(),
        is_done(walk, raw),
    ensures
        finished(walk, language, raw, classes, data) == finished(
            closed(walk, language, raw, data),
            language,
            raw,
            classes,
            data,
        ),
{
    reveal(finished);
    reveal(closed);
}

proof fn lemma_finish_swallowed(
    walk: Walk,
    language: Language,
    raw: RawTree,
    classes: Seq<Option<SyntaxClass>>,
    data: Seq<u8>,
)
    requires
        raw.wf(),
        0 <= walk.index < raw.entries@.len(),
        !is_done(walk, raw),
        raw.at(walk.index).start < walk.until,
    ensures
        finished(walk, language, raw, classes, data) == finished(
            Walk {
                index: raw.ends@[walk.index] as int,
                ..approached(walk, language, raw, data)
            },
            language,
            raw,
            classes,
            data,
        ),
{
    reveal(finished);
    reveal(approached);
}

proof fn lemma_finish_entered(
    walk: Walk,
    language: Language,
    raw: RawTree,
    classes: Seq<Option<SyntaxClass>>,
    data: Seq<u8>,
)
    requires
        raw.wf(),
        0 <= walk.index < raw.entries@.len(),
        !is_done(walk, raw),
        raw.at(walk.index).start >= walk.until,
    ensures
        finished(walk, language, raw, classes, data) == finished(
            entered(
                approached(walk, language, raw, data),
                if walk.frames.len() > 0 {
                    Some(walk.frames.last())
                } else {
                    None
                },
                language,
                raw,
                classes,
                data,
            ),
            language,
            raw,
            classes,
            data,
        ),
{
    reveal(finished);
    reveal(approached);
    reveal(entered);
}

/// A longer drawing keeps what the walk has established.
proof fn lemma_walk_grows(
    earlier: Seq<Draft>,
    earlier_origins: Seq<Option<int>>,
    later: Seq<Draft>,
    later_origins: Seq<Option<int>>,
    raw: RawTree,
    index: int,
    until: int,
)
    requires
        earlier.len() == earlier_origins.len(),
        extends_drawing(earlier, earlier_origins, later, later_origins),
        forall|i: int|
            earlier_origins.len() <= i < later_origins.len() ==> (
            #[trigger] later_origins[i]) is None,
        forall|i: int|
            0 <= i < earlier_origins.len() ==> (#[trigger] earlier_origins[i] matches Some(at)
                ==> at < index),
        forall|at: int| 0 <= at < index ==> #[trigger] accounted(earlier, earlier_origins, raw, at),
        until > 0 ==> reaches(earlier, earlier_origins, raw, until),
    ensures
        forall|i: int|
            0 <= i < later_origins.len() ==> (#[trigger] later_origins[i] matches Some(at) ==> at
                < index),
        forall|at: int| 0 <= at < index ==> #[trigger] accounted(later, later_origins, raw, at),
        until > 0 ==> reaches(later, later_origins, raw, until),
{
    assert forall|i: int| 0 <= i < earlier.len() implies later_origins[i] == (
    #[trigger] earlier_origins[i]) && later[i].leaf == earlier[i].leaf && later[i].bytes.end
        >= earlier[i].bytes.end by {
        assert(later_origins[i] == earlier_origins[i]);
        assert(later[i] == earlier[i]);
    }
    assert forall|i: int| 0 <= i < later_origins.len() implies (
    #[trigger] later_origins[i] matches Some(at) ==> at < index) by {
        if i < earlier_origins.len() {
            assert(later_origins[i] == earlier_origins[i]);
        }
    }
    lemma_accounted_grows(earlier, earlier_origins, later, later_origins, raw, index);
    if until > 0 {
        lemma_reaches_grows(earlier, earlier_origins, later, later_origins, raw, until);
    }
}

proof fn lemma_reaches_grows(
    earlier: Seq<Draft>,
    earlier_origins: Seq<Option<int>>,
    later: Seq<Draft>,
    later_origins: Seq<Option<int>>,
    raw: RawTree,
    until: int,
)
    requires
        earlier.len() == earlier_origins.len(),
        earlier.len() <= later.len(),
        later.len() == later_origins.len(),
        forall|i: int|
            0 <= i < earlier.len() ==> later_origins[i] == (#[trigger] earlier_origins[i])
                && later[i].bytes.end >= earlier[i].bytes.end,
        reaches(earlier, earlier_origins, raw, until),
    ensures
        reaches(later, later_origins, raw, until),
{
    reveal(reaches);
    let i = choose|i: int|
        0 <= i < earlier_origins.len() && (#[trigger] earlier_origins[i] matches Some(outer)
            && raw.at(outer).end < earlier[i].bytes.end && earlier[i].bytes.end >= until);
    assert(later_origins[i] == earlier_origins[i]);
}

/// A parser node that starts under a stretched extent is accounted for with all it holds.
proof fn lemma_swallowed(
    drafts: Seq<Draft>,
    origins: Seq<Option<int>>,
    raw: RawTree,
    index: int,
    until: int,
)
    requires
        raw.wf(),
        0 <= index < raw.entries@.len(),
        raw.at(index).start < until,
        reaches(drafts, origins, raw, until),
        forall|at: int| 0 <= at < index ==> #[trigger] accounted(drafts, origins, raw, at),
    ensures
        forall|at: int|
            0 <= at < raw.ends@[index] ==> #[trigger] accounted(drafts, origins, raw, at),
{
    reveal(reaches);
    reveal(accounted);
    let i = choose|i: int|
        0 <= i < origins.len() && (#[trigger] origins[i] matches Some(outer) && raw.at(outer).end
            < drafts[i].bytes.end && drafts[i].bytes.end >= until);
    assert forall|at: int| 0 <= at < raw.ends@[index] implies #[trigger] accounted(
        drafts,
        origins,
        raw,
        at,
    ) by {
        if at >= index {
            assert(origins[i] is Some && raw.ends@[index] > at);
        }
    }
}

/// No end is past that of the parent, so an end is past all below.
proof fn lemma_ends_nest(drafts: Seq<Draft>, ends: Seq<usize>, ancestor: int, index: int)
    requires
        ends.len() == drafts.len(),
        0 <= index < drafts.len(),
        forall|c: int|
            0 <= c < drafts.len() ==> ((#[trigger] drafts[c]).parent matches Some(p) ==> (p < c
                ==> ends[c] <= ends[p as int])),
        forall|c: int| 0 <= c < drafts.len() ==> c < (#[trigger] ends[c]),
        is_below(drafts, ancestor, index),
    ensures
        index < ends[ancestor],
        ends[index] <= ends[ancestor],
    decreases index,
{
    if index != ancestor {
        lemma_ends_nest(drafts, ends, ancestor, drafts[index].parent->0 as int);
    }
}

/// What is below an entry comes after it.
proof fn lemma_below_at_least(drafts: Seq<Draft>, entry: int, index: int)
    requires
        is_below(drafts, entry, index),
    ensures
        entry <= index,
    decreases index,
{
    if index != entry {
        lemma_below_at_least(drafts, entry, drafts[index].parent->0 as int);
    }
}

/// What is below an entry is below its parent.
proof fn lemma_below_parent(drafts: Seq<Draft>, entry: int, index: int)
    requires
        0 <= entry < drafts.len(),
        drafts[entry].parent matches Some(parent) && parent < entry,
        entry <= index,
        is_below(drafts, entry, index),
    ensures
        is_below(drafts, drafts[entry].parent->0 as int, index),
    decreases index,
{
    let parent = drafts[entry].parent->0 as int;
    assert(is_below(drafts, parent, parent));
    if index != entry {
        lemma_below_at_least(drafts, entry, drafts[index].parent->0 as int);
        lemma_below_parent(drafts, entry, drafts[index].parent->0 as int);
    }
}

/// Ends of the arena ranges that hold each entry and its descendants.
fn subtree_ends(drafts: &Vec<Draft>) -> (ends: Vec<usize>)
    requires
        drafts_ordered(drafts@),
    ensures
        ends@.len() == drafts@.len(),
        forall|i: int|
            0 <= i < drafts@.len() ==> is_end(drafts@, i, #[trigger] ends@[i] as int),
{
    let count = drafts.len();
    let mut ends: Vec<usize> = Vec::new();
    let mut fill: usize = 0;
    while fill < count
        invariant
            fill <= count,
            ends.len() == fill,
            forall|i: int| 0 <= i < fill ==> (#[trigger] ends@[i]) == i + 1,
        decreases count - fill,
    {
        ends.push(fill + 1);
        fill += 1;
    }
    let mut index = count;
    while index > 0
        invariant
            index <= count,
            count == drafts@.len(),
            ends.len() == count,
            drafts_ordered(drafts@),
            forall|i: int|
                0 <= i < count ==> i < (#[trigger] ends@[i]) <= count && is_below(
                    drafts@,
                    i,
                    ends@[i] - 1,
                ),
            forall|c: int|
                index <= c < count ==> ((#[trigger] drafts@[c]).parent matches Some(p) ==> ends@[c]
                    <= ends@[p as int]),
        decreases index,
    {
        index -= 1;
        assert(drafts@[index as int].parent matches Some(p) ==> p < index);
        if let Some(parent) = drafts[index].parent {
            let end = ends[index];
            if end > ends[parent] {
                proof {
                    lemma_below_parent(drafts@, index as int, end - 1);
                }
                ends.set(parent, end);
            }
        }
    }
    proof {
        assert forall|i: int| 0 <= i < drafts@.len() implies is_end(
            drafts@,
            i,
            #[trigger] ends@[i] as int,
        ) by {
            assert forall|j: int| ends@[i] <= j < drafts@.len() implies !#[trigger] is_below(
                drafts@,
                i,
                j,
            ) by {
                if is_below(drafts@, i, j) {
                    lemma_ends_nest(drafts@, ends@, i, j);
                }
            }
        }
    }
    ends
}

/// The lists name each parent's entries in order.
spec fn are_lists(drafts: Seq<Draft>, lists: Seq<Vec<NodeId>>, count: int) -> bool {
    &&& lists.len() == drafts.len()
    &&& forall|p: int|
        0 <= p < lists.len() ==> (#[trigger] lists[p])@ == child_ids(drafts, p, count)
}

/// Children of every entry, in arena order.
fn child_lists(drafts: &Vec<Draft>) -> (lists: Vec<Vec<NodeId>>)
    requires
        drafts_ordered(drafts@),
    ensures
        are_lists(drafts@, lists@, drafts@.len() as int),
{
    let count = drafts.len();
    let mut lists: Vec<Vec<NodeId>> = Vec::new();
    let mut fill: usize = 0;
    while fill < count
        invariant
            fill <= count,
            lists@.len() == fill,
            forall|p: int| 0 <= p < lists@.len() ==> (#[trigger] lists@[p])@.len() == 0,
        decreases count - fill,
    {
        lists.push(Vec::new());
        fill += 1;
    }
    let mut index: usize = 0;
    assert(are_lists(drafts@, lists@, 0)) by {
        assert forall|p: int| 0 <= p < lists@.len() implies (#[trigger] lists@[p])@ == child_ids(
            drafts@,
            p,
            0,
        ) by {
            assert(lists@[p]@ =~= Seq::empty());
        }
    }
    while index < count
        invariant
            index <= count,
            count == drafts@.len(),
            drafts_ordered(drafts@),
            are_lists(drafts@, lists@, index as int),
        decreases count - index,
    {
        assert(drafts@[index as int].parent matches Some(p) ==> p < index);
        let ghost earlier = lists@;
        if let Some(parent) = drafts[index].parent {
            lists[parent].push(index);
        }
        index += 1;
        proof {
            assert forall|p: int| 0 <= p < lists@.len() implies (
            #[trigger] lists@[p])@ == child_ids(drafts@, p, index as int) by {
                assert(earlier[p]@ == child_ids(drafts@, p, index - 1));
            }
        }
    }
    lists
}

/// The list of a parent's entries names them all, in order.
proof fn lemma_child_ids(drafts: Seq<Draft>, parent: int, count: int)
    requires
        0 <= count <= drafts.len() <= usize::MAX,
    ensures
        forall|k: int|
            0 <= k < child_ids(drafts, parent, count).len() ==> (#[trigger] child_ids(
                drafts,
                parent,
                count,
            )[k]) < count && (drafts[child_ids(drafts, parent, count)[k] as int].parent
                matches Some(id) && id == parent),
        forall|k: int, l: int|
            0 <= k < l < child_ids(drafts, parent, count).len() ==> (#[trigger] child_ids(
                drafts,
                parent,
                count,
            )[k]) < (#[trigger] child_ids(drafts, parent, count)[l]),
        forall|i: int|
            0 <= i < count && ((#[trigger] drafts[i]).parent matches Some(id) && id == parent)
                ==> child_ids(drafts, parent, count).contains(i as NodeId),
    decreases count,
{
    if count > 0 {
        lemma_child_ids(drafts, parent, count - 1);
        let shorter = child_ids(drafts, parent, count - 1);
        let ids = child_ids(drafts, parent, count);
        assert forall|i: int|
            0 <= i < count && ((#[trigger] drafts[i]).parent matches Some(id) && id == parent)
            implies ids.contains(i as NodeId) by {
            if i == count - 1 {
                assert(ids.last() == i as NodeId);
            } else {
                let k = choose|k: int| 0 <= k < shorter.len() && shorter[k] == i as NodeId;
                assert(ids[k] == i as NodeId);
            }
        }
    }
}

/// Entries that take no decorations are passed over.
proof fn lemma_following(drafts: Seq<Draft>, parent: NodeId, from: int, to: int)
    requires
        0 <= from <= to <= drafts.len(),
        forall|j: int| from <= j < to ==> !#[trigger] takes_decorations(drafts, j, parent),
    ensures
        following_owner(drafts, parent, from) == following_owner(drafts, parent, to),
    decreases to - from,
{
    if from < to {
        assert(!takes_decorations(drafts, from, parent));
        lemma_following(drafts, parent, from + 1, to);
    }
}

/// The syntax that a decoration belongs to.
fn decoration_owner(drafts: &Vec<Draft>, lists: &Vec<Vec<NodeId>>, index: usize) -> (found: Option<
    NodeId,
>)
    requires
        drafts_ordered(drafts@),
        index < drafts@.len(),
        are_lists(drafts@, lists@, drafts@.len() as int),
    ensures
        found == owner_of(drafts@, index as int),
{
    match drafts[index].decoration {
        DecorationHint::Nothing => None,
        DecorationHint::EnclosingOwner => {
            let mut ancestor = drafts[index].parent;
            let mut floor: usize = index;
            while ancestor.is_some()
                invariant
                    drafts_ordered(drafts@),
                    index < drafts@.len(),
                    floor <= index,
                    ancestor matches Some(id) ==> id < floor,
                    drafts@[index as int].decoration == DecorationHint::EnclosingOwner,
                    owner_of(drafts@, index as int) == enclosing_owner(drafts@, ancestor),
                decreases floor,
            {
                let id = ancestor.unwrap();
                if drafts[id].owns_decorations {
                    return Some(id);
                }
                assert(drafts@[id as int].parent matches Some(p) ==> p < id);
                ancestor = drafts[id].parent;
                floor = id;
            }
            None
        },
        DecorationHint::FollowingSibling => match drafts[index].parent {
            None => None,
            Some(parent) => sibling_owner(drafts, &lists[parent], index, parent),
        },
    }
}

/// The next entry of a parent that takes decorations.
fn sibling_owner(drafts: &Vec<Draft>, list: &Vec<NodeId>, index: usize, parent: NodeId) -> (found:
    Option<NodeId>)
    requires
        index < drafts@.len(),
        list@ == child_ids(drafts@, parent as int, drafts@.len() as int),
    ensures
        found == following_owner(drafts@, parent, index + 1),
{
    let mut position: usize = 0;
    let count = drafts.len();
    proof {
        assert(count == drafts@.len());
        lemma_child_ids(drafts@, parent as int, drafts@.len() as int);
    }
    while position < list.len()
        invariant
            index < drafts@.len() <= usize::MAX,
            list@ == child_ids(drafts@, parent as int, drafts@.len() as int),
            position <= list@.len(),
            forall|k: int|
                0 <= k < list@.len() ==> (#[trigger] list@[k]) < drafts@.len()
                    && drafts@[list@[k] as int].parent == Some(parent),
            forall|k: int, l: int|
                0 <= k < l < list@.len() ==> (#[trigger] list@[k]) < (#[trigger] list@[l]),
            forall|i: int|
                0 <= i < drafts@.len() && (#[trigger] drafts@[i]).parent == Some(parent)
                    ==> list@.contains(i as NodeId),
            forall|k: int|
                0 <= k < position && (#[trigger] list@[k]) > index ==> !takes_decorations(
                    drafts@,
                    list@[k] as int,
                    parent,
                ),
        decreases list@.len() - position,
    {
        let sibling = list[position];
        if sibling > index && drafts[sibling].owns_decorations && drafts[sibling].decoration
            == DecorationHint::Nothing {
            proof {
                assert forall|j: int| index + 1 <= j < sibling implies !#[trigger] takes_decorations(
                    drafts@,
                    j,
                    parent,
                ) by {
                    if drafts@[j].parent == Some(parent) {
                        let k = choose|k: int| 0 <= k < list@.len() && list@[k] == j as NodeId;
                        assert(list@[k] == j && k < position) by {
                            if k >= position {
                                assert(list@[position as int] <= list@[k]);
                            }
                        }
                    }
                }
                lemma_following(drafts@, parent, index + 1, sibling as int);
                assert(takes_decorations(drafts@, sibling as int, parent));
            }
            return Some(sibling);
        }
        position += 1;
    }
    proof {
        assert forall|j: int| index + 1 <= j < drafts@.len() implies !#[trigger] takes_decorations(
            drafts@,
            j,
            parent,
        ) by {
            if drafts@[j].parent == Some(parent) {
                let k = choose|k: int| 0 <= k < list@.len() && list@[k] == j as NodeId;
                assert(list@[k] == j);
            }
        }
        lemma_following(drafts@, parent, index + 1, drafts@.len() as int);
    }
    None
}

fn copy_ids(ids: &Vec<NodeId>) -> (copy: Vec<NodeId>)
    ensures
        copy@ == ids@,
{
    let mut copy: Vec<NodeId> = Vec::new();
    let mut index: usize = 0;
    while index < ids.len()
        invariant
            index <= ids@.len(),
            copy@ == ids@.take(index as int),
        decreases ids@.len() - index,
    {
        copy.push(ids[index]);
        index += 1;
    }
    assert(ids@.take(ids@.len() as int) =~= ids@);
    copy
}

/// Complete the drafts with lines, children, and decoration owners.
fn complete(source: &Source, drafts: &Vec<Draft>) -> (nodes: Option<Vec<SyntaxNode>>)
    requires
        source.wf(),
        drafts_ordered(drafts@),
    ensures
        match nodes {
            Some(nodes) => completes(nodes@, drafts@, *source) && is_inside(
                drafts@,
                source.data().len() as int,
            ),
            None => !is_inside(drafts@, source.data().len() as int),
        },
{
    let ends = subtree_ends(drafts);
    let lists = child_lists(drafts);
    let mut nodes: Vec<SyntaxNode> = Vec::new();
    let mut index: usize = 0;
    while index < drafts.len()
        invariant
            source.wf(),
            drafts_ordered(drafts@),
            index <= drafts@.len(),
            ends@.len() == drafts@.len(),
            forall|i: int|
                0 <= i < drafts@.len() ==> is_end(drafts@, i, #[trigger] ends@[i] as int),
            are_lists(drafts@, lists@, drafts@.len() as int),
            nodes@.len() == index,
            forall|i: int|
                0 <= i < index ==> completes_entry(#[trigger] nodes@[i], drafts@, i, *source),
            forall|i: int|
                0 <= i < index ==> (#[trigger] drafts@[i]).bytes.start <= drafts@[i].bytes.end
                    <= source.data().len(),
        decreases drafts@.len() - index,
    {
        let draft = drafts[index];
        let lines = match source.line_coverage(draft.bytes.start, draft.bytes.end) {
            None => {
                assert(!(drafts@[index as int].bytes.start <= drafts@[index as int].bytes.end
                    <= source.data().len()));
                return None;
            },
            Some(lines) => lines,
        };
        let owner = decoration_owner(drafts, &lists, index);
        let children = copy_ids(&lists[index]);
        assert(is_end(drafts@, index as int, ends@[index as int] as int));
        nodes.push(
            SyntaxNode {
                kind: draft.kind,
                slot: draft.slot,
                bytes: draft.bytes,
                lines,
                parent: draft.parent,
                children,
                subtree_end: ends[index],
                leaf: draft.leaf,
                identity: draft.identity,
                decoration_owner: owner,
                review: draft.review,
                correspondence: draft.correspondence,
                named: draft.named,
                extra: draft.extra,
                missing: draft.missing,
            },
        );
        index += 1;
    }
    Some(nodes)
}

/// The parser entries, with the ends of their subtrees.
pub open spec fn is_tree_of(raw: RawTree, entries: Seq<RawEntry>) -> bool {
    raw.wf() && raw.entries@ == entries
}

/// The layout of the parser entries under their highlights, and where its entries come from.
pub open spec fn is_layout_of(
    drafts: Seq<Draft>,
    raw: RawTree,
    entries: Seq<RawEntry>,
    captures: Seq<CaptureView>,
    language: Language,
    data: Seq<u8>,
) -> bool {
    &&& is_tree_of(raw, entries)
    &&& drafts == laid_out(language, raw, highlighted(entries, captures), data)
    &&& exists|origins: Seq<Option<int>>| #[trigger]
        is_layout(drafts, origins, language, raw, data)
}

/// The nodes are the layout of the parser entries under their highlights.
pub open spec fn projects(
    nodes: Seq<SyntaxNode>,
    entries: Seq<RawEntry>,
    captures: Seq<CaptureView>,
    language: Language,
    source: Source,
) -> bool {
    exists|drafts: Seq<Draft>, raw: RawTree| #[trigger]
        is_layout_of(drafts, raw, entries, captures, language, source.data()) && completes(
            nodes,
            drafts,
            source,
        )
}

/// The layout of the parser entries leaves the text or is no arena.
pub open spec fn is_unprojectable(
    entries: Seq<RawEntry>,
    captures: Seq<CaptureView>,
    language: Language,
    source: Source,
) -> bool {
    exists|drafts: Seq<Draft>, raw: RawTree| #[trigger]
        is_layout_of(drafts, raw, entries, captures, language, source.data()) && is_unsound(
            drafts,
            source,
        )
}

/// Whether the parser accounted for the whole text or skipped parts of it.
pub open spec fn health_of(entries: Seq<RawEntry>) -> ProjectionHealth {
    if entries.len() > 0 && entries[0].node.error {
        ProjectionHealth::Recovered
    } else {
        ProjectionHealth::Parsed
    }
}

/// Lay out already parsed entries as a syntax tree.
pub fn project_entries(
    language: Language,
    source: Source,
    entries: Vec<RawEntry>,
    captures: Vec<Capture>,
) -> (tree: Result<SyntaxTree, ParseFailure>)
    requires
        source.wf(),
    ensures
        match tree {
            Ok(tree) => tree.wf() && tree.source == source && tree.language == language
                && tree.health == health_of(entries@) && projects(
                tree.nodes@,
                entries@,
                capture_views(captures@),
                language,
                source,
            ),
            Err(failure) => failure == ParseFailure::Syntax && is_unprojectable(
                entries@,
                capture_views(captures@),
                language,
                source,
            ),
        },
{
    let health = if entries.len() > 0 && entries[0].node.error {
        ProjectionHealth::Recovered
    } else {
        ProjectionHealth::Parsed
    };
    let raw = RawTree::new(entries);
    let classes = highlight_classes(&raw, &captures);
    let (drafts, origins) = lay_out(language, &raw, &classes, &source);
    assert(is_layout(drafts@, origins@, language, raw, source.data()));
    proof {
        lemma_drawn_shape(drafts@, origins@, language, raw, source.data());
    }
    assert(is_layout_of(
        drafts@,
        raw,
        entries@,
        capture_views(captures@),
        language,
        source.data(),
    ));
    match complete(&source, &drafts) {
        None => Err(ParseFailure::Syntax),
        Some(nodes) => {
            assert(completes(nodes@, drafts@, source));
            match SyntaxTree::from_nodes(source, language, health, nodes) {
                None => Err(ParseFailure::Syntax),
                Some(tree) => Ok(tree),
            }
        },
    }
}

/// Highlight queries of a language, in the order in which they apply.
pub fn highlight_sources(language: Language) -> (sources: Vec<HighlightSource>)
    ensures
        sources@ == highlight_source_seq(language),
{
    match language {
        Language::Lines => Vec::new(),
        Language::Rust => vec![HighlightSource::Rust],
        Language::Html => vec![HighlightSource::Html],
        Language::Css => vec![HighlightSource::Css],
        Language::C => vec![HighlightSource::C],
        Language::JavaScript => vec![HighlightSource::JavaScript],
        Language::Jsx => vec![HighlightSource::JavaScript, HighlightSource::Jsx],
        Language::TypeScript => vec![HighlightSource::JavaScript, HighlightSource::TypeScript],
        Language::Tsx => vec![
            HighlightSource::JavaScript,
            HighlightSource::Jsx,
            HighlightSource::TypeScript,
        ],
    }
}

/// Highlight queries of a language, in the order in which they apply.
pub open spec fn highlight_source_seq(language: Language) -> Seq<HighlightSource> {
    match language {
        Language::Lines => Seq::empty(),
        Language::Rust => seq![HighlightSource::Rust],
        Language::Html => seq![HighlightSource::Html],
        Language::Css => seq![HighlightSource::Css],
        Language::C => seq![HighlightSource::C],
        Language::JavaScript => seq![HighlightSource::JavaScript],
        Language::Jsx => seq![HighlightSource::JavaScript, HighlightSource::Jsx],
        Language::TypeScript => seq![HighlightSource::JavaScript, HighlightSource::TypeScript],
        Language::Tsx => seq![
            HighlightSource::JavaScript,
            HighlightSource::Jsx,
            HighlightSource::TypeScript,
        ],
    }
}

/// What a text's parse comes to: a parse or a query that cannot be set up, an error that the
/// language does not tolerate, more nodes than are laid out, or the layout of the parse.
pub open spec fn is_projected(
    language: Language,
    source: Source,
    tree: Result<SyntaxTree, ParseFailure>,
) -> bool {
    match parsed_entries(language, source.chars()) {
        None => is_failure(tree, ParseFailure::Setup),
        Some(entries) => if entries[0].node.missing || entries[0].node.error && language
            != Language::Html {
            is_failure(tree, ParseFailure::Syntax)
        } else if entries.len() > MAX_SYNTAX_NODES {
            is_failure(tree, ParseFailure::Complexity)
        } else {
            match all_captures(language, highlight_source_seq(language), source.chars()) {
                None => is_failure(tree, ParseFailure::Setup),
                Some(captures) => is_preorder(entries) && if entries[0].node.error
                    && !html::is_recoverable(entries, source.data()) {
                    is_failure(tree, ParseFailure::Syntax)
                } else {
                    is_laid_out(language, source, entries, captures, tree)
                },
            }
        },
    }
}

/// What laying out a parse comes to.
pub open spec fn is_laid_out(
    language: Language,
    source: Source,
    entries: Seq<RawEntry>,
    captures: Seq<CaptureView>,
    tree: Result<SyntaxTree, ParseFailure>,
) -> bool {
    match tree {
        Ok(tree) => tree.wf() && tree.source == source && tree.language == language && tree.health
            == health_of(entries) && projects(tree.nodes@, entries, captures, language, source),
        Err(failure) => failure == ParseFailure::Syntax && is_unprojectable(
            entries,
            captures,
            language,
            source,
        ),
    }
}

/// Parse a text and lay it out as a syntax tree.
pub fn project_language(language: Language, source: Source) -> (tree: Result<
    SyntaxTree,
    ParseFailure,
>)
    requires
        source.wf(),
        language != Language::Lines,
    ensures
        is_projected(language, source, tree),
{
    let queries = highlight_sources(language);
    let lenient = language == Language::Html;
    match parse_entries(language, source.as_str(), &queries, MAX_SYNTAX_NODES, lenient) {
        Err(failure) => Err(failure),
        Ok((entries, captures)) => {
            if entries[0].node.error && !html::accepts_recovery(&entries, &source) {
                return Err(ParseFailure::Syntax);
            }
            project_entries(language, source, entries, captures)
        },
    }
}

} // verus!

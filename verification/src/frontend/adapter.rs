//! Decisions that a language makes about one parser node.

use crate::frontend::raw::RawTree;
use crate::grammar::{capture_views, Capture, CaptureView, RawEntry};
use crate::source::Source;
use crate::span::Span;
use crate::syntax::{
    ContentChannel, CorrespondenceRole, LayoutOwnership, LeafRole, ReviewMode, ReviewUnit,
    SyntaxClass,
};
use crate::text::{all_white, blank, contains_str, ends_with_str, has_char, same_str};
use vstd::prelude::*;
use vstd::utf8::*;

verus! {

/// Which syntax a decoration belongs to.
#[derive(Clone, Copy, Debug, PartialEq, Eq, Structural)]
pub enum DecorationHint {
    Nothing,
    FollowingSibling,
    EnclosingOwner,
}

/// Language decision for one parser node.
#[derive(Clone, Copy, Debug, PartialEq, Eq, Structural)]
pub struct NodeAnnotation {
    pub review: Option<ReviewUnit>,
    pub channel: Option<ContentChannel>,
    pub descendant_channel: Option<ContentChannel>,
    /// Language-specific spelling used as an identity, independent of review units.
    pub identity: Option<Span>,
    /// Language-owned extent when the grammar stops before the semantic content does.
    pub extent: Option<Span>,
    pub decoration: DecorationHint,
    /// Whether decorations may attach to this node.
    pub owns_decorations: bool,
    pub correspondence: CorrespondenceRole,
    /// Treat the node's complete byte range as one payload and discard parser children.
    pub prune_children: bool,
}

/// Ordinary grammar structure.
pub open spec fn plain() -> NodeAnnotation {
    NodeAnnotation {
        review: None,
        channel: None,
        descendant_channel: None,
        identity: None,
        extent: None,
        decoration: DecorationHint::Nothing,
        owns_decorations: false,
        correspondence: CorrespondenceRole::Transparent,
        prune_children: false,
    }
}

/// A comment: one pruned payload on the comment channel.
pub open spec fn commentary(review: Option<ReviewUnit>, decoration: DecorationHint) -> NodeAnnotation {
    NodeAnnotation {
        review,
        channel: Some(ContentChannel::Comment),
        descendant_channel: Some(ContentChannel::Comment),
        decoration,
        prune_children: true,
        ..plain()
    }
}

/// A semantic container.
pub open spec fn owner(
    review: Option<ReviewUnit>,
    identity: Option<Span>,
    decoration: DecorationHint,
) -> NodeAnnotation {
    NodeAnnotation {
        review,
        identity,
        decoration,
        owns_decorations: true,
        correspondence: CorrespondenceRole::HardOwner,
        ..plain()
    }
}

impl NodeAnnotation {
    /// Ordinary grammar structure.
    pub fn plain() -> (annotation: NodeAnnotation)
        ensures
            annotation == plain(),
    {
        NodeAnnotation {
            review: None,
            channel: None,
            descendant_channel: None,
            identity: None,
            extent: None,
            decoration: DecorationHint::Nothing,
            owns_decorations: false,
            correspondence: CorrespondenceRole::Transparent,
            prune_children: false,
        }
    }

    /// A comment: one pruned payload on the comment channel.
    pub fn commentary(review: Option<ReviewUnit>, decoration: DecorationHint) -> (annotation:
        NodeAnnotation)
        ensures
            annotation == commentary(review, decoration),
    {
        let mut annotation = NodeAnnotation::plain();
        annotation.review = review;
        annotation.channel = Some(ContentChannel::Comment);
        annotation.descendant_channel = Some(ContentChannel::Comment);
        annotation.decoration = decoration;
        annotation.prune_children = true;
        annotation
    }

    /// A semantic container.
    pub fn owner(
        review: Option<ReviewUnit>,
        identity: Option<Span>,
        decoration: DecorationHint,
    ) -> (annotation: NodeAnnotation)
        ensures
            annotation == owner(review, identity, decoration),
    {
        let mut annotation = NodeAnnotation::plain();
        annotation.review = review;
        annotation.identity = identity;
        annotation.decoration = decoration;
        annotation.owns_decorations = true;
        annotation.correspondence = CorrespondenceRole::HardOwner;
        annotation
    }
}

/// A review unit where the node stands directly under the file.
pub open spec fn unit_if(top: bool, mode: ReviewMode, layout: LayoutOwnership) -> Option<ReviewUnit> {
    if top {
        Some(ReviewUnit { mode, layout })
    } else {
        None
    }
}

/// A review unit where the node stands directly under the file.
pub fn unit_when(top: bool, mode: ReviewMode, layout: LayoutOwnership) -> (unit: Option<ReviewUnit>)
    ensures
        unit == unit_if(top, mode, layout),
{
    if top {
        Some(ReviewUnit { mode, layout })
    } else {
        None
    }
}

/// The byte range lies inside the text on character boundaries.
pub open spec fn on_boundaries(data: Seq<u8>, bytes: Span) -> bool {
    bytes.start <= bytes.end <= data.len() && is_char_boundary(data, bytes.start as int)
        && is_char_boundary(data, bytes.end as int)
}

/// Characters of a byte range.
pub open spec fn range_chars(data: Seq<u8>, bytes: Span) -> Seq<char> {
    decode_utf8(data.subrange(bytes.start as int, bytes.end as int))
}

/// The byte range is white space and nothing else.
pub open spec fn is_blank_range(data: Seq<u8>, bytes: Span) -> bool {
    on_boundaries(data, bytes) && all_white(range_chars(data, bytes))
}

/// The byte range holds a line break.
pub open spec fn breaks_line(data: Seq<u8>, bytes: Span) -> bool {
    on_boundaries(data, bytes) && (range_chars(data, bytes).contains('\n') || range_chars(
        data,
        bytes,
    ).contains('\r'))
}

/// Whether a byte range is white space and nothing else.
pub fn gap_is_blank(source: &Source, bytes: Span) -> (result: bool)
    ensures
        result == is_blank_range(source.data(), bytes),
{
    match source.slice(bytes.start, bytes.end) {
        Some(text) => {
            proof {
                encode_utf8_decode_utf8(text@);
            }
            blank(text)
        },
        None => false,
    }
}

/// Whether a byte range holds a line break.
pub fn gap_breaks_line(source: &Source, bytes: Span) -> (result: bool)
    ensures
        result == breaks_line(source.data(), bytes),
{
    match source.slice(bytes.start, bytes.end) {
        Some(text) => {
            proof {
                encode_utf8_decode_utf8(text@);
            }
            has_char(text, '\n') || has_char(text, '\r')
        },
        None => false,
    }
}

/// Channel of parser-omitted bytes: white space is layout unless its place makes it content.
pub open spec fn blank_channel(blank: bool, content: bool) -> ContentChannel {
    if blank && !content {
        ContentChannel::Layout
    } else {
        ContentChannel::Syntax
    }
}

/// Syntax class of a leaf from its channel, its highlight, and its grammar symbol.
pub open spec fn leaf_class(
    kind: Seq<char>,
    channel: ContentChannel,
    inherited: Option<SyntaxClass>,
) -> SyntaxClass {
    match channel {
        ContentChannel::Comment => SyntaxClass::Comment,
        ContentChannel::Opaque | ContentChannel::Layout => SyntaxClass::Plain,
        ContentChannel::Syntax => match inherited {
            Some(syntax) => syntax,
            None => kind_class(kind),
        },
    }
}

/// Syntax class of a leaf from its channel, its highlight, and its grammar symbol.
pub fn leaf_syntax(
    kind: &str,
    channel: ContentChannel,
    inherited_syntax: Option<SyntaxClass>,
) -> (syntax: SyntaxClass)
    ensures
        syntax == leaf_class(kind@, channel, inherited_syntax),
{
    match channel {
        ContentChannel::Comment => SyntaxClass::Comment,
        ContentChannel::Opaque | ContentChannel::Layout => SyntaxClass::Plain,
        ContentChannel::Syntax => match inherited_syntax {
            Some(syntax) => syntax,
            None => syntax_from_kind(kind),
        },
    }
}

/// The symbol's name holds the word.
pub open spec fn mentions(kind: Seq<char>, word: Seq<char>) -> bool {
    exists|at: int| #[trigger] crate::text::occurs_at(encode_utf8(kind), encode_utf8(word), at)
}

/// ASCII punctuation.
pub open spec fn is_punctuation(c: char) -> bool {
    ||| 0x21 <= c as u32 <= 0x2f
    ||| 0x3a <= c as u32 <= 0x40
    ||| 0x5b <= c as u32 <= 0x60
    ||| 0x7b <= c as u32 <= 0x7e
}

/// The symbol's name ends with the word.
pub open spec fn ends_in(kind: Seq<char>, word: Seq<char>) -> bool {
    encode_utf8(word).len() <= encode_utf8(kind).len() && crate::text::occurs_at(
        encode_utf8(kind),
        encode_utf8(word),
        encode_utf8(kind).len() - encode_utf8(word).len(),
    )
}

/// Syntax class suggested by a grammar symbol's name.
pub open spec fn kind_class(kind: Seq<char>) -> SyntaxClass {
    if mentions(kind, "comment"@) {
        SyntaxClass::Comment
    } else if mentions(kind, "string"@) || mentions(kind, "char"@) {
        SyntaxClass::String
    } else if mentions(kind, "number"@) || mentions(kind, "integer"@) || mentions(kind, "float"@)
        || kind == "true"@ || kind == "false"@ || kind == "null"@ || kind == "undefined"@ {
        SyntaxClass::Literal
    } else if mentions(kind, "type"@) {
        SyntaxClass::Type
    } else if mentions(kind, "identifier"@) || ends_in(kind, "_name"@) {
        SyntaxClass::Identifier
    } else if exists|i: int| 0 <= i < kind.len() && is_punctuation(#[trigger] kind[i]) {
        SyntaxClass::Punctuation
    } else {
        SyntaxClass::Plain
    }
}

/// Syntax class suggested by a grammar symbol's name.
pub fn syntax_from_kind(kind: &str) -> (syntax: SyntaxClass)
    ensures
        syntax == kind_class(kind@),
{
    if contains_str(kind, "comment") {
        return SyntaxClass::Comment;
    }
    if contains_str(kind, "string") || contains_str(kind, "char") {
        return SyntaxClass::String;
    }
    if contains_str(kind, "number") || contains_str(kind, "integer") || contains_str(kind, "float")
        || same_str(kind, "true") || same_str(kind, "false") || same_str(kind, "null") || same_str(
        kind,
        "undefined",
    ) {
        return SyntaxClass::Literal;
    }
    if contains_str(kind, "type") {
        return SyntaxClass::Type;
    }
    if contains_str(kind, "identifier") || ends_with_str(kind, "_name") {
        return SyntaxClass::Identifier;
    }
    let chars = crate::text::chars_of(kind);
    let mut index: usize = 0;
    while index < chars.len()
        invariant
            index <= chars.len(),
            chars@ == kind@,
            forall|k: int| 0 <= k < index ==> !is_punctuation(#[trigger] kind@[k]),
            kind_class(kind@) == SyntaxClass::Punctuation || kind_class(kind@)
                == SyntaxClass::Plain,
            (exists|i: int| 0 <= i < kind@.len() && is_punctuation(#[trigger] kind@[i]))
                ==> kind_class(kind@) == SyntaxClass::Punctuation,
            !(exists|i: int| 0 <= i < kind@.len() && is_punctuation(#[trigger] kind@[i]))
                ==> kind_class(kind@) == SyntaxClass::Plain,
        decreases chars.len() - index,
    {
        let code = chars[index] as u32;
        if (0x21 <= code && code <= 0x2f) || (0x3a <= code && code <= 0x40) || (0x5b <= code && code
            <= 0x60) || (0x7b <= code && code <= 0x7e) {
            assert(is_punctuation(kind@[index as int]));
            return SyntaxClass::Punctuation;
        }
        index += 1;
    }
    SyntaxClass::Plain
}

/// Part of a capture name before its first dot.
pub open spec fn stem_of(name: Seq<char>) -> Seq<char>
    decreases name.len(),
{
    if name.len() == 0 || name[0] == '.' {
        Seq::empty()
    } else {
        seq![name[0]] + stem_of(name.drop_first())
    }
}

/// Syntax class of a highlight capture, where its stem names one.
pub open spec fn capture_class(stem: Seq<char>) -> Option<SyntaxClass> {
    if stem == "comment"@ {
        Some(SyntaxClass::Comment)
    } else if stem == "string"@ || stem == "character"@ {
        Some(SyntaxClass::String)
    } else if stem == "constant"@ || stem == "number"@ || stem == "boolean"@ {
        Some(SyntaxClass::Literal)
    } else if stem == "keyword"@ || stem == "conditional"@ || stem == "repeat"@ || stem
        == "exception"@ || stem == "include"@ {
        Some(SyntaxClass::Keyword)
    } else if stem == "type"@ || stem == "constructor"@ {
        Some(SyntaxClass::Type)
    } else if stem == "variable"@ || stem == "function"@ || stem == "method"@ || stem
        == "property"@ || stem == "field"@ || stem == "parameter"@ || stem == "module"@ || stem
        == "namespace"@ || stem == "label"@ || stem == "tag"@ || stem == "attribute"@ {
        Some(SyntaxClass::Identifier)
    } else if stem == "operator"@ || stem == "punctuation"@ {
        Some(SyntaxClass::Punctuation)
    } else {
        None
    }
}

proof fn lemma_stem_step(name: Seq<char>, at: int)
    requires
        0 <= at <= name.len(),
        forall|k: int| 0 <= k < at ==> name[k] != '.',
    ensures
        stem_of(name) == name.take(at) + stem_of(name.skip(at)),
    decreases at,
{
    if at == 0 {
        assert(name.skip(0) =~= name);
        assert(name.take(0) + stem_of(name) =~= stem_of(name));
    } else {
        lemma_stem_step(name.drop_first(), at - 1);
        assert(name.drop_first().skip(at - 1) =~= name.skip(at));
        assert(seq![name[0]] + name.drop_first().take(at - 1) =~= name.take(at));
        assert(seq![name[0]] + (name.drop_first().take(at - 1) + stem_of(name.skip(at))) =~= (
        seq![name[0]] + name.drop_first().take(at - 1)) + stem_of(name.skip(at)));
    }
}

/// Whether the stem of a capture name equals a word.
fn stem_is(name: &Vec<char>, stop: usize, word: &str) -> (result: bool)
    requires
        stop <= name.len(),
    ensures
        result == (name@.take(stop as int) == word@),
{
    let wanted = crate::text::chars_of(word);
    if wanted.len() != stop {
        assert(name@.take(stop as int).len() != word@.len());
        return false;
    }
    let mut index: usize = 0;
    while index < stop
        invariant
            index <= stop <= name.len(),
            wanted.len() == stop,
            wanted@ == word@,
            forall|k: int| 0 <= k < index ==> name@[k] == word@[k],
        decreases stop - index,
    {
        if name[index] != wanted[index] {
            assert(name@.take(stop as int)[index as int] != word@[index as int]);
            return false;
        }
        index += 1;
    }
    assert(name@.take(stop as int) =~= word@);
    true
}

/// Syntax class of a highlight capture, where the part before its first dot names one.
pub fn capture_syntax(capture: &str) -> (syntax: Option<SyntaxClass>)
    ensures
        syntax == capture_class(stem_of(capture@)),
{
    let name = crate::text::chars_of(capture);
    let mut stop: usize = 0;
    while stop < name.len() && name[stop] != '.'
        invariant
            stop <= name.len(),
            name@ == capture@,
            forall|k: int| 0 <= k < stop ==> name@[k] != '.',
        decreases name.len() - stop,
    {
        stop += 1;
    }
    proof {
        lemma_stem_step(capture@, stop as int);
        assert(stem_of(capture@.skip(stop as int)) =~= Seq::<char>::empty());
        assert(stem_of(capture@) =~= capture@.take(stop as int));
    }
    if stem_is(&name, stop, "comment") {
        Some(SyntaxClass::Comment)
    } else if stem_is(&name, stop, "string") || stem_is(&name, stop, "character") {
        Some(SyntaxClass::String)
    } else if stem_is(&name, stop, "constant") || stem_is(&name, stop, "number") || stem_is(
        &name,
        stop,
        "boolean",
    ) {
        Some(SyntaxClass::Literal)
    } else if stem_is(&name, stop, "keyword") || stem_is(&name, stop, "conditional") || stem_is(
        &name,
        stop,
        "repeat",
    ) || stem_is(&name, stop, "exception") || stem_is(&name, stop, "include") {
        Some(SyntaxClass::Keyword)
    } else if stem_is(&name, stop, "type") || stem_is(&name, stop, "constructor") {
        Some(SyntaxClass::Type)
    } else if stem_is(&name, stop, "variable") || stem_is(&name, stop, "function") || stem_is(
        &name,
        stop,
        "method",
    ) || stem_is(&name, stop, "property") || stem_is(&name, stop, "field") || stem_is(
        &name,
        stop,
        "parameter",
    ) || stem_is(&name, stop, "module") || stem_is(&name, stop, "namespace") || stem_is(
        &name,
        stop,
        "label",
    ) || stem_is(&name, stop, "tag") || stem_is(&name, stop, "attribute") {
        Some(SyntaxClass::Identifier)
    } else if stem_is(&name, stop, "operator") || stem_is(&name, stop, "punctuation") {
        Some(SyntaxClass::Punctuation)
    } else {
        None
    }
}

/// Grammar symbols that only separate or enclose other syntax.
pub open spec fn is_delimiter_kind(kind: Seq<char>) -> bool {
    kind == "("@ || kind == ")"@ || kind == "["@ || kind == "]"@ || kind == "{"@ || kind == "}"@
        || kind == ","@ || kind == ";"@
}

/// Whether a grammar symbol only separates or encloses other syntax.
pub fn delimiter_kind(kind: &str) -> (result: bool)
    ensures
        result == is_delimiter_kind(kind@),
{
    same_str(kind, "(") || same_str(kind, ")") || same_str(kind, "[") || same_str(kind, "]")
        || same_str(kind, "{") || same_str(kind, "}") || same_str(kind, ",") || same_str(kind, ";")
}

/// What a parser leaf contributes to matching evidence.
pub open spec fn role_of(kind: Seq<char>, named: bool) -> LeafRole {
    if !named {
        LeafRole::Grammar
    } else if mentions(kind, "identifier"@) {
        LeafRole::Identifier
    } else {
        LeafRole::Payload
    }
}

/// What a parser leaf contributes to matching evidence.
pub fn leaf_role(kind: &str, named: bool) -> (role: LeafRole)
    ensures
        role == role_of(kind@, named),
{
    if !named {
        LeafRole::Grammar
    } else if contains_str(kind, "identifier") {
        LeafRole::Identifier
    } else {
        LeafRole::Payload
    }
}

/// Where a binary search between two positions finds the first node that starts at or past a
/// byte.
pub open spec fn start_between(entries: Seq<RawEntry>, byte: usize, low: int, high: int) -> int
    decreases high - low,
{
    if low >= high {
        low
    } else {
        let middle = low + (high - low) / 2;
        if entries[middle].node.start < byte {
            start_between(entries, byte, middle + 1, high)
        } else {
            start_between(entries, byte, low, middle)
        }
    }
}

/// The node that a capture names, among the nodes from a position on that start where it does.
pub open spec fn captured_from(entries: Seq<RawEntry>, capture: CaptureView, at: int) -> Option<int>
    decreases entries.len() - at,
{
    if at < 0 || at >= entries.len() || entries[at].node.start != capture.start {
        None
    } else if entries[at].node.end == capture.end && entries[at].node.kind@ == capture.kind {
        Some(at)
    } else {
        captured_from(entries, capture, at + 1)
    }
}

/// The node that a capture names.
pub open spec fn captured_node(entries: Seq<RawEntry>, capture: CaptureView) -> Option<int> {
    captured_from(
        entries,
        capture,
        start_between(entries, capture.start, 0, entries.len() as int),
    )
}

/// Highlight class of every parser node; a later capture of the same node wins.
pub open spec fn highlighted(
    entries: Seq<RawEntry>,
    captures: Seq<CaptureView>,
) -> Seq<Option<SyntaxClass>>
    decreases captures.len(),
{
    if captures.len() == 0 {
        Seq::new(entries.len(), |i: int| None)
    } else {
        let earlier = highlighted(entries, captures.drop_last());
        match (
            capture_class(stem_of(captures.last().name)),
            captured_node(entries, captures.last()),
        ) {
            (Some(class), Some(at)) => earlier.update(at, Some(class)),
            _ => earlier,
        }
    }
}

/// Highlight class of every parser node; a later capture of the same node wins.
pub fn highlight_classes(raw: &RawTree, captures: &Vec<Capture>) -> (classes: Vec<
    Option<SyntaxClass>,
>)
    requires
        raw.wf(),
    ensures
        classes@.len() == raw.entries@.len(),
        classes@ == highlighted(raw.entries@, capture_views(captures@)),
{
    let count = raw.count();
    let ghost views = capture_views(captures@);
    let mut classes: Vec<Option<SyntaxClass>> = Vec::new();
    let mut fill: usize = 0;
    while fill < count
        invariant
            fill <= count,
            classes.len() == fill,
            forall|i: int| 0 <= i < fill ==> (#[trigger] classes@[i]) is None,
        decreases count - fill,
    {
        classes.push(None);
        fill += 1;
    }
    let mut index: usize = 0;
    proof {
        assert(views.take(0) =~= Seq::empty());
        assert(classes@ =~= highlighted(raw.entries@, views.take(0)));
    }
    while index < captures.len()
        invariant
            raw.wf(),
            index <= captures@.len(),
            count == raw.entries@.len(),
            classes.len() == count,
            views == capture_views(captures@),
            classes@ == highlighted(raw.entries@, views.take(index as int)),
        decreases captures.len() - index,
    {
        let capture = &captures[index];
        let syntax = capture_syntax(capture.name.as_str());
        proof {
            assert(views.take(index + 1).drop_last() =~= views.take(index as int));
            assert(views.take(index + 1).last() == capture@);
        }
        if syntax.is_some() {
            if let Some(at) = find_captured(raw, capture) {
                classes.set(at, syntax);
            }
        }
        index += 1;
    }
    assert(views.take(index as int) =~= views);
    classes
}

/// The node that a capture names.
fn find_captured(raw: &RawTree, capture: &Capture) -> (found: Option<usize>)
    ensures
        match found {
            Some(at) => captured_node(raw.entries@, capture@) == Some(at as int) && at
                < raw.entries@.len(),
            None => captured_node(raw.entries@, capture@) is None,
        },
{
    let mut at = first_start(raw, capture.start);
    while at < raw.entries.len()
        invariant
            at <= raw.entries@.len(),
            captured_node(raw.entries@, capture@) == captured_from(
                raw.entries@,
                capture@,
                at as int,
            ),
        decreases raw.entries@.len() - at,
    {
        let node = raw.entries[at].node;
        if node.start != capture.start {
            return None;
        }
        if node.end == capture.end && same_str(node.kind, capture.kind) {
            return Some(at);
        }
        at += 1;
    }
    None
}

/// Binary search for the first node that starts at or past a byte.
fn first_start(raw: &RawTree, byte: usize) -> (at: usize)
    ensures
        at <= raw.entries@.len(),
        at == start_between(raw.entries@, byte, 0, raw.entries@.len() as int),
{
    let mut low: usize = 0;
    let mut high: usize = raw.entries.len();
    while low < high
        invariant
            low <= high <= raw.entries.len(),
            start_between(raw.entries@, byte, 0, raw.entries@.len() as int) == start_between(
                raw.entries@,
                byte,
                low as int,
                high as int,
            ),
        decreases high - low,
    {
        let middle: usize = low + (high - low) / 2;
        if raw.entries[middle].node.start < byte {
            low = middle + 1;
        } else {
            high = middle;
        }
    }
    low
}

} // verus!

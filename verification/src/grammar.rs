//! The parser boundary: grammars go in, plain preorder entries come out.

use crate::syntax::Language;
use tree_sitter::{Parser, Query, QueryCursor, StreamingIterator, Tree, TreeCursor};
use vstd::prelude::*;

verus! {

/// Plain facts about one parser node.
#[derive(Clone, Copy, Debug, PartialEq, Eq)]
pub struct RawNode {
    pub kind: &'static str,
    pub field: Option<&'static str>,
    pub start: usize,
    pub end: usize,
    pub named: bool,
    pub extra: bool,
    pub missing: bool,
    /// Whether this node or anything below it failed to parse.
    pub error: bool,
}

/// One parser node with its depth below the root.
#[derive(Clone, Copy, Debug, PartialEq, Eq)]
pub struct RawEntry {
    pub depth: u32,
    pub node: RawNode,
}

/// One highlighted parser node and the capture name that a query gave it.
#[derive(Clone, Debug, PartialEq, Eq)]
pub struct Capture {
    pub start: usize,
    pub end: usize,
    pub kind: &'static str,
    pub name: String,
}

/// A capture with its texts as characters.
pub struct CaptureView {
    pub start: usize,
    pub end: usize,
    pub kind: Seq<char>,
    pub name: Seq<char>,
}

impl View for Capture {
    type V = CaptureView;

    open spec fn view(&self) -> CaptureView {
        CaptureView { start: self.start, end: self.end, kind: self.kind@, name: self.name@ }
    }
}

/// Views of a list of captures.
pub open spec fn capture_views(captures: Seq<Capture>) -> Seq<CaptureView> {
    Seq::new(captures.len(), |i: int| captures[i]@)
}

/// A highlight query shipped with a grammar.
#[derive(Clone, Copy, Debug, PartialEq, Eq, Structural)]
pub enum HighlightSource {
    Rust,
    Html,
    Css,
    JavaScript,
    Jsx,
    TypeScript,
    C,
}

/// Depth-first entries: the root first, and each later entry at most one level below the
/// entry before it.
pub open spec fn is_preorder(entries: Seq<RawEntry>) -> bool {
    &&& entries.len() > 0
    &&& entries[0].depth == 0
    &&& forall|i: int, j: int|
        0 <= i < entries.len() && j == i + 1 && j < entries.len() ==> 1 <= (
        #[trigger] entries[j]).depth <= (#[trigger] entries[i]).depth + 1
}

/// First entry at or past `from` that is no deeper than `depth`, or the length.
pub open spec fn first_shallow(entries: Seq<RawEntry>, depth: int, from: int) -> int
    decreases entries.len() - from,
{
    if from >= entries.len() {
        entries.len() as int
    } else if entries[from].depth <= depth {
        from
    } else {
        first_shallow(entries, depth, from + 1)
    }
}

/// End of the subtree that starts at an entry.
pub open spec fn subtree_stop(entries: Seq<RawEntry>, at: int) -> int {
    first_shallow(entries, entries[at].depth as int, at + 1)
}

/// Last entry before `at` that is shallower than `depth`, or -1.
pub open spec fn last_shallower(entries: Seq<RawEntry>, depth: int, at: int) -> int
    decreases at,
{
    if at <= 0 {
        -1
    } else if entries[at - 1].depth < depth {
        at - 1
    } else {
        last_shallower(entries, depth, at - 1)
    }
}

/// A parsed tree of the parser crate.
#[verifier::external_type_specification]
#[verifier::external_body]
pub struct ExTree(tree_sitter::Tree);

/// A position in a parsed tree of the parser crate.
#[verifier::external_type_specification]
#[verifier::external_body]
pub struct ExTreeCursor<'cursor>(tree_sitter::TreeCursor<'cursor>);

/// The nodes that a parsed tree holds, depth first.
pub uninterp spec fn tree_entries(tree: Tree) -> Seq<RawEntry>;

/// The grammar that a tree was parsed with, by a language that uses it.
pub uninterp spec fn tree_grammar(tree: Tree) -> Language;

/// The text that a tree was parsed from.
pub uninterp spec fn tree_text(tree: Tree) -> Seq<char>;

/// A language by whose grammar a language is parsed: two languages may share a grammar.
pub open spec fn grammar_of(language: Language) -> Language {
    match language {
        Language::Jsx => Language::JavaScript,
        _ => language,
    }
}

/// The nodes of the tree that a cursor walks, depth first.
pub uninterp spec fn cursor_entries(cursor: TreeCursor<'_>) -> Seq<RawEntry>;

/// Index of the entry that a cursor stands on.
pub uninterp spec fn cursor_index(cursor: TreeCursor<'_>) -> int;

/// What `Parser::parse` finds in a text with a grammar, depth first; nothing where the parser
/// refuses the grammar or gives up.
pub uninterp spec fn parsed_entries(language: Language, text: Seq<char>) -> Option<Seq<RawEntry>>;

/// Text of a grammar crate's highlight query.
pub uninterp spec fn highlight_text(source: HighlightSource) -> Seq<char>;

/// What `QueryCursor::captures` yields for a query over a parsed text; nothing where the query
/// does not compile.
pub uninterp spec fn query_captures(
    language: Language,
    query: Seq<char>,
    text: Seq<char>,
) -> Option<Seq<CaptureView>>;

/// `Parser::set_language` and `Parser::parse` from `tree_sitter`, with the grammar constant
/// of the language's crate. Whether a tree comes back, and which one, depends on the grammar and
/// the text alone; the entries are in preorder. The tree belongs to that grammar and that text.
#[verifier::external_body]
fn parse_text(language: Language, text: &str) -> (tree: Option<Tree>)
    requires
        language != Language::Lines,
    ensures
        match tree {
            Some(tree) => parsed_entries(language, text@) == Some(tree_entries(tree))
                && is_preorder(tree_entries(tree)) && tree_grammar(tree) == grammar_of(language)
                && tree_text(tree) == text@,
            None => parsed_entries(language, text@) is None,
        },
{
    let grammar: tree_sitter::Language = match language {
        Language::Lines => return None,
        Language::Rust => tree_sitter_rust::LANGUAGE.into(),
        Language::Html => tree_sitter_html::LANGUAGE.into(),
        Language::Css => tree_sitter_css::LANGUAGE.into(),
        Language::TypeScript => tree_sitter_typescript::LANGUAGE_TYPESCRIPT.into(),
        Language::Tsx => tree_sitter_typescript::LANGUAGE_TSX.into(),
        Language::JavaScript | Language::Jsx => tree_sitter_javascript::LANGUAGE.into(),
        Language::C => tree_sitter_c::LANGUAGE.into(),
    };
    let mut parser = Parser::new();
    parser.set_language(&grammar).ok()?;
    parser.parse(text, None)
}

/// `Tree::walk`: a cursor on the root of the tree.
#[verifier::external_body]
fn open_cursor(tree: &Tree) -> (cursor: TreeCursor<'_>)
    ensures
        cursor_entries(cursor) == tree_entries(*tree),
        cursor_index(cursor) == 0,
{
    tree.walk()
}

/// `TreeCursor::goto_first_child`: moves to the next entry where that entry is one deeper.
#[verifier::external_body]
fn descend(cursor: &mut TreeCursor<'_>) -> (moved: bool)
    ensures
        cursor_entries(*final(cursor)) == cursor_entries(*old(cursor)),
        moved == (cursor_index(*old(cursor)) + 1 < cursor_entries(*old(cursor)).len()
            && cursor_entries(*old(cursor))[cursor_index(*old(cursor)) + 1].depth
            > cursor_entries(*old(cursor))[cursor_index(*old(cursor))].depth),
        cursor_index(*final(cursor)) == if moved {
            cursor_index(*old(cursor)) + 1
        } else {
            cursor_index(*old(cursor))
        },
{
    cursor.goto_first_child()
}

/// `TreeCursor::goto_next_sibling`: moves past the current subtree where the entry there has
/// the same depth.
#[verifier::external_body]
fn advance(cursor: &mut TreeCursor<'_>) -> (moved: bool)
    ensures
        cursor_entries(*final(cursor)) == cursor_entries(*old(cursor)),
        moved == (subtree_stop(cursor_entries(*old(cursor)), cursor_index(*old(cursor)))
            < cursor_entries(*old(cursor)).len() && cursor_entries(*old(cursor))[subtree_stop(
            cursor_entries(*old(cursor)),
            cursor_index(*old(cursor)),
        )].depth == cursor_entries(*old(cursor))[cursor_index(*old(cursor))].depth),
        cursor_index(*final(cursor)) == if moved {
            subtree_stop(cursor_entries(*old(cursor)), cursor_index(*old(cursor)))
        } else {
            cursor_index(*old(cursor))
        },
{
    cursor.goto_next_sibling()
}

/// `TreeCursor::goto_parent`: moves to the closest earlier entry that is shallower, and stays
/// on the root.
#[verifier::external_body]
fn ascend(cursor: &mut TreeCursor<'_>) -> (moved: bool)
    ensures
        cursor_entries(*final(cursor)) == cursor_entries(*old(cursor)),
        moved == (cursor_index(*old(cursor)) != 0),
        cursor_index(*final(cursor)) == if moved {
            last_shallower(
                cursor_entries(*old(cursor)),
                cursor_entries(*old(cursor))[cursor_index(*old(cursor))].depth as int,
                cursor_index(*old(cursor)),
            )
        } else {
            cursor_index(*old(cursor))
        },
{
    cursor.goto_parent()
}

/// `TreeCursor::depth`, `TreeCursor::field_name` and the getters of `TreeCursor::node`: the
/// entry under the cursor.
#[verifier::external_body]
fn current_entry(cursor: &TreeCursor<'_>) -> (entry: RawEntry)
    ensures
        entry == cursor_entries(*cursor)[cursor_index(*cursor)],
{
    let node = cursor.node();
    let raw = RawNode {
        kind: node.kind(),
        field: cursor.field_name(),
        start: node.start_byte(),
        end: node.end_byte(),
        named: node.is_named(),
        extra: node.is_extra(),
        missing: node.is_missing(),
        error: node.has_error(),
    };
    RawEntry { depth: cursor.depth(), node: raw }
}

/// The highlight query constants of the grammar crates.
#[verifier::external_body]
fn highlight_query(source: HighlightSource) -> (query: &'static str)
    ensures
        query@ == highlight_text(source),
{
    match source {
        HighlightSource::Rust => tree_sitter_rust::HIGHLIGHTS_QUERY,
        HighlightSource::Html => tree_sitter_html::HIGHLIGHTS_QUERY,
        HighlightSource::Css => tree_sitter_css::HIGHLIGHTS_QUERY,
        HighlightSource::JavaScript => tree_sitter_javascript::HIGHLIGHT_QUERY,
        HighlightSource::Jsx => tree_sitter_javascript::JSX_HIGHLIGHT_QUERY,
        HighlightSource::TypeScript => tree_sitter_typescript::HIGHLIGHTS_QUERY,
        HighlightSource::C => tree_sitter_c::HIGHLIGHT_QUERY,
    }
}

/// `Query::new` and `QueryCursor::captures`: every capture in order, with the byte range and
/// kind of its node. The tree must be one that was parsed from the text with the language's
/// grammar. Whether the query compiles, and what it captures, depends on the grammar, the query
/// and the text alone.
#[verifier::external_body]
fn run_query(language: Language, query: &str, tree: &Tree, text: &str) -> (captures: Option<
    Vec<Capture>,
>)
    requires
        tree_grammar(*tree) == grammar_of(language),
        tree_text(*tree) == text@,
    ensures
        query_captures(language, query@, text@) == match captures {
            Some(captures) => Some(capture_views(captures@)),
            None => None,
        },
{
    let query = Query::new(&tree.language(), query).ok()?;
    let names = query.capture_names();
    let mut cursor = QueryCursor::new();
    let mut found = cursor.captures(&query, tree.root_node(), text.as_bytes());
    let mut captures = Vec::new();
    while let Some((matched, index)) = found.next() {
        let capture = matched.captures[*index];
        let (start, end) = (capture.node.start_byte(), capture.node.end_byte());
        let name = names[capture.index as usize].to_owned();
        captures.push(Capture { start, end, kind: capture.node.kind(), name });
    }
    Some(captures)
}

/// Why a text has no usable parse.
#[derive(Clone, Copy, Debug, PartialEq, Eq, Structural)]
pub enum ParseFailure {
    /// The grammar or one of its queries could not be set up.
    Setup,
    /// The grammar could not account for the whole text.
    Syntax,
    /// The tree is larger than the node budget.
    Complexity,
}

/// Entries of a tree, or nothing where it holds more than `limit` nodes.
pub fn collect_entries(tree: &Tree, limit: usize) -> (entries: Option<Vec<RawEntry>>)
    requires
        is_preorder(tree_entries(*tree)),
        limit < usize::MAX,
    ensures
        entries is Some <==> tree_entries(*tree).len() <= limit,
        entries matches Some(entries) ==> entries@ == tree_entries(*tree),
{
    let ghost all = tree_entries(*tree);
    let mut entries: Vec<RawEntry> = Vec::new();
    let mut cursor = open_cursor(tree);
    let mut done: bool = false;
    while !done
        invariant
            is_preorder(all),
            all == tree_entries(*tree),
            cursor_entries(cursor) == all,
            limit < usize::MAX,
            entries.len() <= limit,
            entries.len() <= all.len(),
            entries@ == all.take(entries.len() as int),
            !done ==> cursor_index(cursor) == entries.len() && entries.len() < all.len(),
            done ==> entries.len() == all.len(),
        decreases
            all.len() - entries.len(),
            if done {
                0int
            } else {
                1int
            },
    {
        if entries.len() == limit {
            return None;
        }
        let ghost at = cursor_index(cursor);
        entries.push(current_entry(&cursor));
        assert(entries@ =~= all.take(entries.len() as int));
        if descend(&mut cursor) {
            continue;
        }
        proof {
            if at + 1 < all.len() {
                assert(all[at + 1].depth <= all[at].depth);
            }
            assert(subtree_stop(all, at) == at + 1);
        }
        let mut searching: bool = true;
        while searching
            invariant
                is_preorder(all),
                cursor_entries(cursor) == all,
                0 < entries.len() <= all.len(),
                searching ==> 0 <= cursor_index(cursor) < entries.len() && subtree_stop(
                    all,
                    cursor_index(cursor),
                ) == entries.len(),
                !searching ==> done && entries.len() == all.len() || !done && cursor_index(cursor)
                    == entries.len() && entries.len() < all.len(),
                searching ==> !done,
            decreases
                    if searching {
                        cursor_index(cursor) + 1
                    } else {
                        0
                    },
        {
            let ghost here = cursor_index(cursor);
            if advance(&mut cursor) {
                searching = false;
            } else {
                let ghost stop = subtree_stop(all, here);
                if ascend(&mut cursor) {
                    proof {
                        lemma_parent_stop(all, here);
                    }
                } else {
                    proof {
                        lemma_root_stop(all, 1);
                    }
                    done = true;
                    searching = false;
                }
            }
        }
    }
    assert(all.take(all.len() as int) =~= all);
    Some(entries)
}

proof fn lemma_first_shallow(entries: Seq<RawEntry>, depth: int, from: int)
    requires
        0 <= from <= entries.len(),
    ensures
        from <= first_shallow(entries, depth, from) <= entries.len(),
        first_shallow(entries, depth, from) < entries.len() ==> entries[first_shallow(
            entries,
            depth,
            from,
        )].depth <= depth,
        forall|k: int|
            from <= k < first_shallow(entries, depth, from) ==> (#[trigger] entries[k]).depth
                > depth,
    decreases entries.len() - from,
{
    if from < entries.len() && entries[from].depth > depth {
        lemma_first_shallow(entries, depth, from + 1);
    }
}

proof fn lemma_first_shallow_skip(entries: Seq<RawEntry>, depth: int, from: int, to: int)
    requires
        0 <= from <= to <= entries.len(),
        forall|k: int| from <= k < to ==> (#[trigger] entries[k]).depth > depth,
    ensures
        first_shallow(entries, depth, from) == first_shallow(entries, depth, to),
    decreases to - from,
{
    if from < to {
        lemma_first_shallow_skip(entries, depth, from + 1, to);
    }
}

proof fn lemma_root_stop(entries: Seq<RawEntry>, from: int)
    requires
        is_preorder(entries),
        1 <= from <= entries.len(),
    ensures
        first_shallow(entries, 0, from) == entries.len(),
    decreases entries.len() - from,
{
    if from < entries.len() {
        assert(entries[from].depth >= 1) by {
            assert(entries[from - 1].depth >= 0);
        }
        lemma_root_stop(entries, from + 1);
    }
}

proof fn lemma_last_shallower(entries: Seq<RawEntry>, depth: int, at: int)
    requires
        0 <= at <= entries.len(),
    ensures
        -1 <= last_shallower(entries, depth, at) < at || at == 0 && last_shallower(
            entries,
            depth,
            at,
        ) == -1,
        last_shallower(entries, depth, at) >= 0 ==> entries[last_shallower(
            entries,
            depth,
            at,
        )].depth < depth,
        forall|k: int|
            last_shallower(entries, depth, at) < k < at ==> (#[trigger] entries[k]).depth >= depth,
        entries.len() > 0 && at > 0 && entries[0].depth < depth ==> last_shallower(
            entries,
            depth,
            at,
        ) >= 0,
    decreases at,
{
    if at > 0 && entries[at - 1].depth >= depth {
        lemma_last_shallower(entries, depth, at - 1);
    }
}

/// Past a subtree without a next sibling comes the end of its parent's subtree.
proof fn lemma_parent_stop(entries: Seq<RawEntry>, at: int)
    requires
        is_preorder(entries),
        0 < at < entries.len(),
        subtree_stop(entries, at) < entries.len() ==> entries[subtree_stop(entries, at)].depth
            != entries[at].depth,
    ensures
        0 <= last_shallower(entries, entries[at].depth as int, at) < at,
        subtree_stop(entries, last_shallower(entries, entries[at].depth as int, at))
            == subtree_stop(entries, at),
{
    let depth = entries[at].depth as int;
    assert(entries[at - 1].depth >= 0 && depth >= 1);
    lemma_last_shallower(entries, depth, at);
    let parent = last_shallower(entries, depth, at);
    let stop = subtree_stop(entries, at);
    lemma_first_shallow(entries, depth, at + 1);
    let parent_depth = entries[parent].depth as int;
    assert(parent_depth == depth - 1) by {
        let next = parent + 1;
        assert(entries[next].depth <= entries[parent].depth + 1);
        if next < at {
            assert(entries[next].depth >= depth);
        }
    }
    assert forall|k: int| parent + 1 <= k < stop implies (#[trigger] entries[k]).depth
        > parent_depth by {
        if k > at {
            assert(entries[k].depth > depth);
        }
    }
    lemma_first_shallow_skip(entries, parent_depth, parent + 1, stop);
}

/// Parse a text into preorder entries and the captures of its highlight queries.
///
/// A grammar error is reported before the node budget is counted, unless the caller is `lenient`
/// and judges the recovered tree itself.
pub fn parse_entries(
    language: Language,
    text: &str,
    queries: &[HighlightSource],
    limit: usize,
    lenient: bool,
) -> (parsed: Result<(Vec<RawEntry>, Vec<Capture>), ParseFailure>)
    requires
        language != Language::Lines,
        limit < usize::MAX,
    ensures
        match parsed_entries(language, text@) {
            None => is_failure(parsed, ParseFailure::Setup),
            Some(entries) => is_preorder(entries) && if entries[0].node.missing
                || entries[0].node.error && !lenient {
                is_failure(parsed, ParseFailure::Syntax)
            } else if entries.len() > limit {
                is_failure(parsed, ParseFailure::Complexity)
            } else {
                match all_captures(language, queries@, text@) {
                    None => is_failure(parsed, ParseFailure::Setup),
                    Some(captures) => parsed is Ok && parsed->Ok_0.0@ == entries && capture_views(
                        parsed->Ok_0.1@,
                    ) == captures,
                }
            },
        },
{
    let tree = match parse_text(language, text) {
        None => {
            return Err(ParseFailure::Setup);
        },
        Some(tree) => tree,
    };
    let cursor = open_cursor(&tree);
    let root = current_entry(&cursor);
    if root.node.error && !lenient || root.node.missing {
        return Err(ParseFailure::Syntax);
    }
    let entries = match collect_entries(&tree, limit) {
        None => {
            return Err(ParseFailure::Complexity);
        },
        Some(entries) => entries,
    };
    let mut captures: Vec<Capture> = Vec::new();
    let mut index: usize = 0;
    proof {
        assert(queries@.take(0) =~= Seq::<HighlightSource>::empty());
        assert(capture_views(captures@) =~= Seq::<CaptureView>::empty());
    }
    while index < queries.len()
        invariant
            index <= queries.len(),
            parsed_entries(language, text@) == Some(tree_entries(tree)),
            tree_grammar(tree) == grammar_of(language),
            tree_text(tree) == text@,
            is_preorder(tree_entries(tree)),
            !(tree_entries(tree)[0].node.missing || tree_entries(tree)[0].node.error && !lenient),
            tree_entries(tree).len() <= limit,
            all_captures(language, queries@.take(index as int), text@) == Some(
                capture_views(captures@),
            ),
        decreases queries.len() - index,
    {
        let query = highlight_query(queries[index]);
        proof {
            assert(queries@.take(index + 1).drop_last() =~= queries@.take(index as int));
            assert(queries@.take(index + 1).last() == queries@[index as int]);
        }
        match run_query(language, query, &tree, text) {
            None => {
                proof {
                    lemma_captures_missing(language, queries@, text@, index + 1);
                    assert(queries@.take(queries.len() as int) =~= queries@);
                }
                return Err(ParseFailure::Setup);
            },
            Some(found) => {
                let ghost earlier = captures@;
                let ghost added = found@;
                let mut found = found;
                captures.append(&mut found);
                proof {
                    assert(capture_views(captures@) =~= capture_views(earlier) + capture_views(
                        added,
                    ));
                }
            },
        }
        index += 1;
    }
    assert(queries@.take(queries.len() as int) =~= queries@);
    Ok((entries, captures))
}

/// The parse failed for the reason.
pub open spec fn is_failure<T>(parsed: Result<T, ParseFailure>, failure: ParseFailure) -> bool {
    parsed is Err && parsed->Err_0 == failure
}

/// Captures of several queries, one query after the other; nothing where one does not compile.
pub open spec fn all_captures(
    language: Language,
    queries: Seq<HighlightSource>,
    text: Seq<char>,
) -> Option<Seq<CaptureView>>
    decreases queries.len(),
{
    if queries.len() == 0 {
        Some(Seq::empty())
    } else {
        match (
            all_captures(language, queries.drop_last(), text),
            query_captures(language, highlight_text(queries.last()), text),
        ) {
            (Some(earlier), Some(captures)) => Some(earlier + captures),
            _ => None,
        }
    }
}

/// A query that does not compile leaves no captures at all.
proof fn lemma_captures_missing(
    language: Language,
    queries: Seq<HighlightSource>,
    text: Seq<char>,
    end: int,
)
    requires
        0 <= end <= queries.len(),
        all_captures(language, queries.take(end), text) is None,
    ensures
        all_captures(language, queries.take(queries.len() as int), text) is None,
    decreases queries.len() - end,
{
    if end < queries.len() {
        assert(queries.take(end + 1).drop_last() =~= queries.take(end));
        lemma_captures_missing(language, queries, text, end + 1);
    }
}

} // verus!

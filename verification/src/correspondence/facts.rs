//! Interned symbols and structural fingerprints of both trees.

use crate::correspondence::keys::{distinct_keys, extends, text_words, Interner};
use crate::frontend::adapter::on_boundaries;
use crate::syntax::{children_hold, node_fits, ContentChannel, NodeId, SyntaxNode, SyntaxTree};
use vstd::prelude::*;
use vstd::utf8::*;

verus! {

/// Interned texts of one node.
#[derive(Clone, Copy)]
pub struct Symbols {
    pub kind: usize,
    /// Zero without a field; otherwise one more than the number of the field's name.
    pub slot: usize,
    /// Number of a leaf's text.
    pub payload: Option<usize>,
    /// Number of the identity's spelling.
    pub identity: Option<usize>,
}

/// The numbers of a node stand for its texts.
pub open spec fn symbols_describe(
    keys: Seq<Seq<usize>>,
    tree: SyntaxTree,
    index: int,
    symbols: Symbols,
) -> bool {
    let node = tree.nodes@[index];
    let data = tree.source.data();
    &&& symbols.kind < keys.len() && keys[symbols.kind as int] == text_words(
        encode_utf8(node.kind@),
    )
    &&& match node.slot {
        None => symbols.slot == 0,
        Some(slot) => 0 < symbols.slot <= keys.len() && keys[symbols.slot - 1] == text_words(
            encode_utf8(slot@),
        ),
    }
    &&& symbols.payload is Some <==> node.leaf is Some && on_boundaries(data, node.bytes)
    &&& symbols.payload matches Some(id) ==> id < keys.len() && keys[id as int] == text_words(
        data.subrange(node.bytes.start as int, node.bytes.end as int),
    )
    &&& symbols.identity matches Some(id) ==> node.identity is Some && id < keys.len()
        && keys[id as int] == text_words(
        data.subrange(node.identity->0.start as int, node.identity->0.end as int),
    )
}

/// Fingerprints of one node; equal numbers mean equal structure.
#[derive(Clone, Copy, PartialEq, Eq, Structural)]
pub struct NodeFingerprints {
    /// Everything but layout.
    pub full: usize,
    /// Everything but layout and comments; nothing for a comment or layout leaf.
    pub payload: Option<usize>,
    /// Everything but layout and leaf texts.
    pub shape: usize,
}

/// Which content a fingerprint covers.
#[derive(Clone, Copy, PartialEq, Eq, Structural)]
pub enum PrintMode {
    Full,
    Shape,
    Payload,
}

pub open spec fn channel_code(node: SyntaxNode) -> usize {
    match node.leaf {
        None => 0,
        Some(leaf) => match leaf.channel {
            ContentChannel::Syntax => 1,
            ContentChannel::Comment => 2,
            ContentChannel::Opaque => 3,
            ContentChannel::Layout => 4,
        },
    }
}

fn channel_number(node: &SyntaxNode) -> (code: usize)
    ensures
        code == channel_code(*node),
{
    match node.leaf {
        None => 0,
        Some(leaf) => match leaf.channel {
            ContentChannel::Syntax => 1,
            ContentChannel::Comment => 2,
            ContentChannel::Opaque => 3,
            ContentChannel::Layout => 4,
        },
    }
}

pub open spec fn flag(value: bool) -> usize {
    if value {
        1
    } else {
        0
    }
}

fn flag_number(value: bool) -> (number: usize)
    ensures
        number == flag(value),
{
    if value {
        1
    } else {
        0
    }
}

/// Facts of the node itself, before its children.
pub open spec fn header_words(node: SyntaxNode, symbols: Symbols, mode: PrintMode) -> Seq<usize> {
    let text = if mode == PrintMode::Shape {
        None
    } else {
        symbols.payload
    };
    seq![
        symbols.kind,
        channel_code(node),
        flag(node.named),
        flag(node.extra),
        flag(node.missing),
        flag(text is Some),
        match text {
            Some(id) => id,
            None => 0,
        },
    ]
}

/// Whether a child takes part in a fingerprint, and with which number.
pub open spec fn child_print(
    node: SyntaxNode,
    prints: NodeFingerprints,
    mode: PrintMode,
) -> Option<usize> {
    match mode {
        PrintMode::Full => if node.is_layout() {
            None
        } else {
            Some(prints.full)
        },
        PrintMode::Shape => if node.is_layout() {
            None
        } else {
            Some(prints.shape)
        },
        PrintMode::Payload => prints.payload,
    }
}

/// Incoming field and number of every child that takes part, in order.
pub open spec fn edge_words(
    tree: SyntaxTree,
    symbols: Seq<Symbols>,
    prints: Seq<NodeFingerprints>,
    index: int,
    mode: PrintMode,
    count: int,
) -> Seq<usize>
    decreases count,
{
    if count <= 0 {
        Seq::empty()
    } else {
        let child = tree.nodes@[index].children@[count - 1] as int;
        let earlier = edge_words(tree, symbols, prints, index, mode, count - 1);
        match child_print(tree.nodes@[child], prints[child], mode) {
            Some(print) => earlier.push(symbols[child].slot).push(print),
            None => earlier,
        }
    }
}

/// The complete key of a node.
pub open spec fn print_words(
    tree: SyntaxTree,
    symbols: Seq<Symbols>,
    prints: Seq<NodeFingerprints>,
    index: int,
    mode: PrintMode,
) -> Seq<usize> {
    header_words(tree.nodes@[index], symbols[index], mode) + edge_words(
        tree,
        symbols,
        prints,
        index,
        mode,
        tree.nodes@[index].children@.len() as int,
    )
}

/// Comments and layout carry no payload.
pub open spec fn is_payload_free(node: SyntaxNode) -> bool {
    node.leaf matches Some(leaf) && (leaf.channel == ContentChannel::Comment || leaf.channel
        == ContentChannel::Layout)
}

/// The fingerprints of a node stand for its key.
pub open spec fn prints_describe(
    keys: Seq<Seq<usize>>,
    tree: SyntaxTree,
    symbols: Seq<Symbols>,
    prints: Seq<NodeFingerprints>,
    index: int,
) -> bool {
    &&& prints[index].full < keys.len() && keys[prints[index].full as int] == print_words(
        tree,
        symbols,
        prints,
        index,
        PrintMode::Full,
    )
    &&& prints[index].shape < keys.len() && keys[prints[index].shape as int] == print_words(
        tree,
        symbols,
        prints,
        index,
        PrintMode::Shape,
    )
    &&& prints[index].payload is None <==> is_payload_free(tree.nodes@[index])
    &&& prints[index].payload matches Some(id) ==> id < keys.len() && keys[id as int]
        == print_words(tree, symbols, prints, index, PrintMode::Payload)
}

/// Symbols and fingerprints of one tree.
pub struct Facts {
    pub symbols: Vec<Symbols>,
    pub prints: Vec<NodeFingerprints>,
}

impl Facts {
    /// One entry per node.
    pub open spec fn fits(self, tree: SyntaxTree) -> bool {
        self.symbols@.len() == tree.nodes@.len() && self.prints@.len() == tree.nodes@.len()
    }

    /// Every number stands for what it was interned from.
    pub open spec fn describes(self, keys: Seq<Seq<usize>>, tree: SyntaxTree) -> bool {
        &&& self.fits(tree)
        &&& forall|i: int|
            0 <= i < tree.nodes@.len() ==> symbols_describe(
                keys,
                tree,
                i,
                #[trigger] self.symbols@[i],
            )
        &&& forall|i: int|
            0 <= i < tree.nodes@.len() ==> #[trigger] prints_describe(
                keys,
                tree,
                self.symbols@,
                self.prints@,
                i,
            )
    }
}

fn node_symbols(tree: &SyntaxTree, index: usize, interner: &mut Interner) -> (symbols: Symbols)
    requires
        tree.wf(),
        index < tree.nodes@.len(),
        old(interner).wf(),
    ensures
        final(interner).wf(),
        extends(final(interner)@, old(interner)@),
        symbols_describe(final(interner)@, *tree, index as int, symbols),
{
    let ghost start = interner@;
    let kind = interner.intern_text(tree.nodes[index].kind);
    let ghost second = interner@;
    let slot: usize = match tree.nodes[index].slot {
        None => 0,
        Some(name) => {
            let id = interner.intern_text(name);
            id + 1
        },
    };
    let ghost third = interner@;
    let payload = match tree.leaf_text(index) {
        None => None,
        Some(text) => Some(interner.intern_text(text)),
    };
    let ghost fourth = interner@;
    let identity = match tree.identity_text(index) {
        None => None,
        Some(text) => Some(interner.intern_text(text)),
    };
    proof {
        assert(node_fits(
            tree.nodes@[index as int],
            index as int,
            tree.nodes@.len() as int,
            tree.source.data().len() as int,
        ));
        lemma_extends(fourth, third, second);
        lemma_extends(interner@, fourth, second);
        lemma_extends(interner@, fourth, third);
        lemma_extends(interner@, second, start);
        assert(interner@[kind as int] == second[kind as int]);
        if tree.nodes@[index as int].slot is Some {
            assert(interner@[slot - 1] == third[slot - 1]);
        }
        if payload is Some {
            assert(interner@[payload->0 as int] == fourth[payload->0 as int]);
        }
    }
    Symbols { kind, slot, payload, identity }
}

/// Growth of the interner is transitive.
pub proof fn lemma_extends(later: Seq<Seq<usize>>, middle: Seq<Seq<usize>>, earlier: Seq<Seq<usize>>)
    requires
        extends(later, middle),
        extends(middle, earlier),
    ensures
        extends(later, earlier),
{
    assert forall|i: int| 0 <= i < earlier.len() implies #[trigger] later[i] == earlier[i] by {
        assert(middle[i] == earlier[i]);
    }
}

proof fn lemma_symbols_extend(
    later: Seq<Seq<usize>>,
    earlier: Seq<Seq<usize>>,
    tree: SyntaxTree,
    index: int,
    symbols: Symbols,
)
    requires
        extends(later, earlier),
        symbols_describe(earlier, tree, index, symbols),
    ensures
        symbols_describe(later, tree, index, symbols),
{
    assert(later[symbols.kind as int] == earlier[symbols.kind as int]);
    if tree.nodes@[index].slot is Some {
        assert(later[symbols.slot - 1] == earlier[symbols.slot - 1]);
    }
    if symbols.payload is Some {
        assert(later[symbols.payload->0 as int] == earlier[symbols.payload->0 as int]);
    }
    if symbols.identity is Some {
        assert(later[symbols.identity->0 as int] == earlier[symbols.identity->0 as int]);
    }
}

/// Facts stay true of a larger interner.
pub proof fn lemma_describes_extend(
    later: Seq<Seq<usize>>,
    earlier: Seq<Seq<usize>>,
    tree: SyntaxTree,
    facts: Facts,
)
    requires
        extends(later, earlier),
        facts.describes(earlier, tree),
    ensures
        facts.describes(later, tree),
{
    assert forall|i: int| 0 <= i < tree.nodes@.len() implies symbols_describe(
        later,
        tree,
        i,
        #[trigger] facts.symbols@[i],
    ) by {
        lemma_symbols_extend(later, earlier, tree, i, facts.symbols@[i]);
    }
    assert forall|i: int| 0 <= i < tree.nodes@.len() implies #[trigger] prints_describe(
        later,
        tree,
        facts.symbols@,
        facts.prints@,
        i,
    ) by {
        assert(prints_describe(earlier, tree, facts.symbols@, facts.prints@, i));
        assert(later[facts.prints@[i].full as int] == earlier[facts.prints@[i].full as int]);
        assert(later[facts.prints@[i].shape as int] == earlier[facts.prints@[i].shape as int]);
        if facts.prints@[i].payload is Some {
            let id = facts.prints@[i].payload->0 as int;
            assert(later[id] == earlier[id]);
        }
    }
}

/// Key of one node.
fn print_key(
    tree: &SyntaxTree,
    symbols: &Vec<Symbols>,
    prints: &Vec<NodeFingerprints>,
    index: usize,
    mode: PrintMode,
) -> (key: Vec<usize>)
    requires
        tree.wf(),
        index < tree.nodes@.len(),
        symbols@.len() == tree.nodes@.len(),
        prints@.len() == tree.nodes@.len(),
    ensures
        key@ == print_words(*tree, symbols@, prints@, index as int, mode),
{
    let node = &tree.nodes[index];
    let own = symbols[index];
    let text = if mode == PrintMode::Shape {
        None
    } else {
        own.payload
    };
    let mut key: Vec<usize> = Vec::new();
    key.push(own.kind);
    key.push(channel_number(node));
    key.push(flag_number(node.named));
    key.push(flag_number(node.extra));
    key.push(flag_number(node.missing));
    key.push(flag_number(text.is_some()));
    key.push(
        match text {
            Some(id) => id,
            None => 0,
        },
    );
    let ghost header = header_words(tree.nodes@[index as int], symbols@[index as int], mode);
    assert(key@ =~= header);
    let mut position: usize = 0;
    assert(key@ =~= header + edge_words(*tree, symbols@, prints@, index as int, mode, 0));
    while position < node.children.len()
        invariant
            tree.wf(),
            index < tree.nodes@.len(),
            *node == tree.nodes@[index as int],
            symbols@.len() == tree.nodes@.len(),
            prints@.len() == tree.nodes@.len(),
            position <= node.children@.len(),
            key@ == header + edge_words(
                *tree,
                symbols@,
                prints@,
                index as int,
                mode,
                position as int,
            ),
        decreases node.children@.len() - position,
    {
        let child = node.children[position];
        proof {
            assert(children_hold(tree.nodes@, index as int));
            assert(node_fits(
                tree.nodes@[index as int],
                index as int,
                tree.nodes@.len() as int,
                tree.source.data().len() as int,
            ));
        }
        let print = match mode {
            PrintMode::Full => if tree.nodes[child].layout_leaf() {
                None
            } else {
                Some(prints[child].full)
            },
            PrintMode::Shape => if tree.nodes[child].layout_leaf() {
                None
            } else {
                Some(prints[child].shape)
            },
            PrintMode::Payload => prints[child].payload,
        };
        let ghost earlier = key@;
        if let Some(number) = print {
            key.push(symbols[child].slot);
            key.push(number);
        }
        position += 1;
        proof {
            assert(key@ =~= header + edge_words(
                *tree,
                symbols@,
                prints@,
                index as int,
                mode,
                position as int,
            ));
        }
    }
    key
}

proof fn lemma_edges_unchanged(
    tree: SyntaxTree,
    symbols: Seq<Symbols>,
    left: Seq<NodeFingerprints>,
    right: Seq<NodeFingerprints>,
    index: int,
    mode: PrintMode,
    count: int,
)
    requires
        tree.wf(),
        0 <= index < tree.nodes@.len(),
        0 <= count <= tree.nodes@[index].children@.len(),
        forall|i: int| index < i < tree.nodes@.len() ==> left[i] == right[i],
    ensures
        edge_words(tree, symbols, left, index, mode, count) == edge_words(
            tree,
            symbols,
            right,
            index,
            mode,
            count,
        ),
    decreases count,
{
    if count > 0 {
        lemma_edges_unchanged(tree, symbols, left, right, index, mode, count - 1);
        assert(children_hold(tree.nodes@, index));
        assert(node_fits(
            tree.nodes@[index],
            index,
            tree.nodes@.len() as int,
            tree.source.data().len() as int,
        ));
        let child = tree.nodes@[index].children@[count - 1] as int;
        assert(tree.nodes@[index].children[count - 1] == child);
        assert(left[child] == right[child]);
    }
}

proof fn lemma_prints_step(
    later: Seq<Seq<usize>>,
    earlier: Seq<Seq<usize>>,
    tree: SyntaxTree,
    symbols: Seq<Symbols>,
    old_prints: Seq<NodeFingerprints>,
    new_prints: Seq<NodeFingerprints>,
    changed: int,
    index: int,
)
    requires
        tree.wf(),
        extends(later, earlier),
        old_prints.len() == new_prints.len() == tree.nodes@.len(),
        0 <= changed < index < tree.nodes@.len(),
        forall|i: int| changed < i < tree.nodes@.len() ==> old_prints[i] == new_prints[i],
        prints_describe(earlier, tree, symbols, old_prints, index),
    ensures
        prints_describe(later, tree, symbols, new_prints, index),
{
    let count = tree.nodes@[index].children@.len() as int;
    lemma_edges_unchanged(tree, symbols, old_prints, new_prints, index, PrintMode::Full, count);
    lemma_edges_unchanged(tree, symbols, old_prints, new_prints, index, PrintMode::Shape, count);
    lemma_edges_unchanged(tree, symbols, old_prints, new_prints, index, PrintMode::Payload, count);
    assert(later[old_prints[index].full as int] == earlier[old_prints[index].full as int]);
    assert(later[old_prints[index].shape as int] == earlier[old_prints[index].shape as int]);
    if old_prints[index].payload is Some {
        assert(later[old_prints[index].payload->0 as int]
            == earlier[old_prints[index].payload->0 as int]);
    }
}

/// Intern fingerprints comparable across both revisions through the shared interner.
/// Full omits layout children, payload also omits comments, and shape omits leaf text.
pub fn fingerprints(tree: &SyntaxTree, interner: &mut Interner) -> (facts: Facts)
    requires
        tree.wf(),
        old(interner).wf(),
    ensures
        final(interner).wf(),
        extends(final(interner)@, old(interner)@),
        facts.describes(final(interner)@, *tree),
{
    let ghost start = interner@;
    let count = tree.nodes.len();
    let mut symbols: Vec<Symbols> = Vec::new();
    let mut prints: Vec<NodeFingerprints> = Vec::new();
    let mut index: usize = 0;
    while index < count
        invariant
            tree.wf(),
            interner.wf(),
            count == tree.nodes@.len(),
            index <= count,
            extends(interner@, start),
            symbols@.len() == index,
            prints@.len() == index,
            forall|i: int|
                0 <= i < index ==> symbols_describe(interner@, *tree, i, #[trigger] symbols@[i]),
        decreases count - index,
    {
        let ghost earlier = interner@;
        let own = node_symbols(tree, index, interner);
        proof {
            lemma_extends(interner@, earlier, start);
            assert forall|i: int| 0 <= i < index implies symbols_describe(
                interner@,
                *tree,
                i,
                #[trigger] symbols@[i],
            ) by {
                lemma_symbols_extend(interner@, earlier, *tree, i, symbols@[i]);
            }
        }
        symbols.push(own);
        prints.push(NodeFingerprints { full: 0, payload: None, shape: 0 });
        index += 1;
    }
    let mut index: usize = count;
    while index > 0
        invariant
            tree.wf(),
            interner.wf(),
            count == tree.nodes@.len(),
            index <= count,
            extends(interner@, start),
            symbols@.len() == count,
            prints@.len() == count,
            forall|i: int|
                0 <= i < count ==> symbols_describe(interner@, *tree, i, #[trigger] symbols@[i]),
            forall|i: int|
                index <= i < count ==> #[trigger] prints_describe(
                    interner@,
                    *tree,
                    symbols@,
                    prints@,
                    i,
                ),
        decreases index,
    {
        index -= 1;
        let ghost first = interner@;
        let full = interner.intern(print_key(tree, &symbols, &prints, index, PrintMode::Full));
        let ghost second = interner@;
        let shape = interner.intern(print_key(tree, &symbols, &prints, index, PrintMode::Shape));
        let ghost third = interner@;
        let excluded = match tree.nodes[index].leaf {
            Some(leaf) => leaf.channel == ContentChannel::Comment || leaf.channel
                == ContentChannel::Layout,
            None => false,
        };
        let payload = if excluded {
            None
        } else {
            Some(interner.intern(print_key(tree, &symbols, &prints, index, PrintMode::Payload)))
        };
        let ghost old_prints = prints@;
        prints.set(index, NodeFingerprints { full, payload, shape });
        proof {
            lemma_extends(third, second, first);
            lemma_extends(interner@, third, first);
            lemma_extends(interner@, third, second);
            lemma_extends(interner@, first, start);
            assert(interner@[full as int] == second[full as int]);
            assert(interner@[shape as int] == third[shape as int]);
            let kids = tree.nodes@[index as int].children@.len() as int;
            lemma_edges_unchanged(
                *tree,
                symbols@,
                old_prints,
                prints@,
                index as int,
                PrintMode::Full,
                kids,
            );
            lemma_edges_unchanged(
                *tree,
                symbols@,
                old_prints,
                prints@,
                index as int,
                PrintMode::Shape,
                kids,
            );
            lemma_edges_unchanged(
                *tree,
                symbols@,
                old_prints,
                prints@,
                index as int,
                PrintMode::Payload,
                kids,
            );
            assert(prints_describe(interner@, *tree, symbols@, prints@, index as int));
            assert forall|i: int| 0 <= i < count implies symbols_describe(
                interner@,
                *tree,
                i,
                #[trigger] symbols@[i],
            ) by {
                lemma_symbols_extend(interner@, first, *tree, i, symbols@[i]);
            }
            assert forall|i: int| index <= i < count implies #[trigger] prints_describe(
                interner@,
                *tree,
                symbols@,
                prints@,
                i,
            ) by {
                if i > index {
                    assert(prints_describe(first, *tree, symbols@, old_prints, i));
                    lemma_prints_step(
                        interner@,
                        first,
                        *tree,
                        symbols@,
                        old_prints,
                        prints@,
                        index as int,
                        i,
                    );
                }
            }
        }
    }
    Facts { symbols, prints }
}

/// Children of a node that are not layout, in order.
pub open spec fn kept_children(tree: SyntaxTree, index: int, count: int) -> Seq<NodeId> {
    tree.nodes@[index].children@.take(count).filter(
        |id: NodeId| !tree.nodes@[id as int].is_layout(),
    )
}

/// Two nodes have the same content: their own facts agree, and so do the fields and the content of
/// their children that are not layout, one by one.
pub open spec fn same_content(
    before: SyntaxTree,
    before_symbols: Seq<Symbols>,
    i: int,
    after: SyntaxTree,
    after_symbols: Seq<Symbols>,
    j: int,
) -> bool
    decreases
            (if i < before.nodes@.len() {
                before.nodes@.len() - i
            } else {
                0
            }),
{
    let left = kept_children(before, i, before.nodes@[i].children@.len() as int);
    let right = kept_children(after, j, after.nodes@[j].children@.len() as int);
    &&& header_words(before.nodes@[i], before_symbols[i], PrintMode::Full) == header_words(
        after.nodes@[j],
        after_symbols[j],
        PrintMode::Full,
    )
    &&& left.len() == right.len()
    &&& forall|k: int|
        #![trigger left[k]]
        #![trigger right[k]]
        0 <= k < left.len() ==> before_symbols[left[k] as int].slot == after_symbols[right[k] as int].slot
            && (if i < left[k] < before.nodes@.len() {
            same_content(before, before_symbols, left[k] as int, after, after_symbols, right[k] as int)
        } else {
            false
        })
}

/// The edges of a fingerprint are the fields and fingerprints of the kept children.
proof fn lemma_edges_listed(
    tree: SyntaxTree,
    symbols: Seq<Symbols>,
    prints: Seq<NodeFingerprints>,
    index: int,
    count: int,
)
    requires
        0 <= count <= tree.nodes@[index].children@.len(),
    ensures
        ({
            let edges = edge_words(tree, symbols, prints, index, PrintMode::Full, count);
            let kept = kept_children(tree, index, count);
            edges.len() == 2 * kept.len() && forall|k: int|
                #![trigger kept[k]]
                0 <= k < kept.len() ==> edges[2 * k] == symbols[kept[k] as int].slot && edges[2 * k
                    + 1] == prints[kept[k] as int].full && tree.nodes@[index].children@.contains(
                    kept[k],
                )
        }),
    decreases count,
{
    let children = tree.nodes@[index].children@;
    let keeps = |id: NodeId| !tree.nodes@[id as int].is_layout();
    reveal(Seq::filter);
    if count > 0 {
        lemma_edges_listed(tree, symbols, prints, index, count - 1);
        let fewer = kept_children(tree, index, count - 1);
        let kept = kept_children(tree, index, count);
        let child = children[count - 1];
        assert(children.take(count) =~= children.take(count - 1).push(child));
        children.take(count - 1).lemma_filter_push(child, keeps);
        let edges = edge_words(tree, symbols, prints, index, PrintMode::Full, count);
        assert forall|k: int| #![trigger kept[k]] 0 <= k < kept.len() implies edges[2 * k]
            == symbols[kept[k] as int].slot && edges[2 * k + 1] == prints[kept[k] as int].full
            && children.contains(kept[k]) by {
            if k < fewer.len() {
                assert(kept[k] == fewer[k]);
            }
        }
    } else {
        assert(children.take(0) =~= Seq::<NodeId>::empty());
    }
}

/// Two nodes of the two revisions have the same fingerprint exactly where their content is the
/// same.
pub proof fn equal_prints_mean_equal_content(
    keys: Seq<Seq<usize>>,
    before: SyntaxTree,
    before_facts: Facts,
    after: SyntaxTree,
    after_facts: Facts,
    i: int,
    j: int,
)
    requires
        distinct_keys(keys),
        before.wf(),
        after.wf(),
        before_facts.describes(keys, before),
        after_facts.describes(keys, after),
        0 <= i < before.nodes@.len(),
        0 <= j < after.nodes@.len(),
    ensures
        before_facts.prints@[i].full == after_facts.prints@[j].full <==> same_content(
            before,
            before_facts.symbols@,
            i,
            after,
            after_facts.symbols@,
            j,
        ),
    decreases before.nodes@.len() - i,
{
    let left_count = before.nodes@[i].children@.len() as int;
    let right_count = after.nodes@[j].children@.len() as int;
    let left = kept_children(before, i, left_count);
    let right = kept_children(after, j, right_count);
    let left_words = print_words(before, before_facts.symbols@, before_facts.prints@, i, PrintMode::Full);
    let right_words = print_words(after, after_facts.symbols@, after_facts.prints@, j, PrintMode::Full);
    let left_edges = edge_words(
        before,
        before_facts.symbols@,
        before_facts.prints@,
        i,
        PrintMode::Full,
        left_count,
    );
    let right_edges = edge_words(
        after,
        after_facts.symbols@,
        after_facts.prints@,
        j,
        PrintMode::Full,
        right_count,
    );
    let left_head = header_words(before.nodes@[i], before_facts.symbols@[i], PrintMode::Full);
    let right_head = header_words(after.nodes@[j], after_facts.symbols@[j], PrintMode::Full);
    assert(prints_describe(keys, before, before_facts.symbols@, before_facts.prints@, i));
    assert(prints_describe(keys, after, after_facts.symbols@, after_facts.prints@, j));
    lemma_edges_listed(before, before_facts.symbols@, before_facts.prints@, i, left_count);
    lemma_edges_listed(after, after_facts.symbols@, after_facts.prints@, j, right_count);
    assert(children_hold(before.nodes@, i));
    assert(children_hold(after.nodes@, j));
    assert(before.nodes@[i].children@.take(left_count) =~= before.nodes@[i].children@);
    assert(after.nodes@[j].children@.take(right_count) =~= after.nodes@[j].children@);
    assert forall|k: int| #![trigger left[k]] 0 <= k < left.len() && k < right.len() implies i
        < left[k] < before.nodes@.len() && (before_facts.prints@[left[k] as int].full
        == after_facts.prints@[right[k] as int].full <==> same_content(
        before,
        before_facts.symbols@,
        left[k] as int,
        after,
        after_facts.symbols@,
        right[k] as int,
    )) by {
        let x = choose|x: int|
            0 <= x < before.nodes@[i].children@.len() && before.nodes@[i].children@[x] == left[k];
        let y = choose|y: int|
            0 <= y < after.nodes@[j].children@.len() && after.nodes@[j].children@[y] == right[k];
        assert(before.nodes@[i].children@.contains(left[k]));
        assert(after.nodes@[j].children@.contains(right[k]));
        assert(i < before.nodes@[i].children@[x] < before.nodes@.len());
        assert(j < after.nodes@[j].children@[y] < after.nodes@.len());
        equal_prints_mean_equal_content(
            keys,
            before,
            before_facts,
            after,
            after_facts,
            left[k] as int,
            right[k] as int,
        );
    }
    assert(left_words =~= left_head + left_edges && right_words =~= right_head + right_edges);
    if before_facts.prints@[i].full == after_facts.prints@[j].full {
        assert(left_words == right_words);
        assert(left_head.len() == 7 && right_head.len() == 7);
        assert(left_head =~= left_words.take(7) && right_head =~= right_words.take(7));
        assert(left_edges =~= left_words.skip(7) && right_edges =~= right_words.skip(7));
        assert forall|k: int|
            #![trigger left[k]]
            #![trigger right[k]]
            0 <= k < left.len() implies before_facts.symbols@[left[k] as int].slot
            == after_facts.symbols@[right[k] as int].slot && (if i < left[k]
            < before.nodes@.len() {
            same_content(
                before,
                before_facts.symbols@,
                left[k] as int,
                after,
                after_facts.symbols@,
                right[k] as int,
            )
        } else {
            false
        }) by {
            assert(left_edges[2 * k] == right_edges[2 * k]);
            assert(left_edges[2 * k + 1] == right_edges[2 * k + 1]);
            assert(left[k] == left[k] && right[k] == right[k]);
        }
    }
    if same_content(before, before_facts.symbols@, i, after, after_facts.symbols@, j) {
        assert forall|m: int| 0 <= m < left_edges.len() implies left_edges[m] == right_edges[m] by {
            let k = m / 2;
            assert(0 <= k < left.len() && k < right.len());
            let b = left[k] as int;
            let a = right[k] as int;
            assert(i < b < before.nodes@.len());
            assert(before_facts.symbols@[b].slot == after_facts.symbols@[a].slot);
            assert(same_content(before, before_facts.symbols@, b, after, after_facts.symbols@, a));
            assert(before_facts.prints@[b].full == after_facts.prints@[a].full);
            assert(left_edges[2 * k] == before_facts.symbols@[b].slot);
            assert(right_edges[2 * k] == after_facts.symbols@[a].slot);
            assert(m == 2 * k || m == 2 * k + 1);
        }
        assert(left_edges =~= right_edges);
        assert(keys[before_facts.prints@[i].full as int]
            == keys[after_facts.prints@[j].full as int]);
    }
}

} // verus!

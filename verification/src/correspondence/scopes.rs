//! Matched containers as evidence for row matches.

use crate::correspondence::geometry::{row_span, zero_based_lines};
use crate::correspondence::links::{LineLink, Placement, ScopeLink};
use crate::syntax::{parent_holds, CorrespondenceRole, NodeId, SyntaxPair, SyntaxTree};
use vstd::prelude::*;

verus! {

/// Strictly ascending values.
pub open spec fn ascending(values: Seq<usize>) -> bool {
    forall|i: int, j: int|
        0 <= i < j < values.len() ==> (#[trigger] values[i]) < (#[trigger] values[j])
}

/// Add a value to an ascending list.
pub fn insert_ascending(values: &mut Vec<usize>, value: usize)
    requires
        ascending(old(values)@),
    ensures
        ascending(final(values)@),
        forall|other: usize|
            final(values)@.contains(other) <==> old(values)@.contains(other) || other == value,
{
    let ghost earlier = values@;
    let mut position: usize = values.len();
    while position > 0 && values[position - 1] > value
        invariant
            position <= values@.len(),
            ascending(values@),
            values@ == earlier,
            forall|k: int| position <= k < values@.len() ==> values@[k] > value,
        decreases position,
    {
        position -= 1;
    }
    if position > 0 && values[position - 1] == value {
        assert(earlier[position - 1] == value);
        return ;
    }
    values.insert(position, value);
    proof {
        assert(values@ =~= earlier.insert(position as int, value));
        assert forall|i: int, j: int| 0 <= i < j < values@.len() implies (#[trigger] values@[i]) < (
        #[trigger] values@[j]) by {
            let left = if i < position {
                i
            } else {
                i - 1
            };
            let right = if j < position {
                j
            } else {
                j - 1
            };
            if i != position {
                assert(values@[i] == earlier[left]);
            }
            if j != position {
                assert(values@[j] == earlier[right]);
            }
            if j == position {
                assert(earlier[i] <= earlier[position - 1]);
            }
        }
        assert forall|other: usize|
            values@.contains(other) <==> earlier.contains(other) || other == value by {
            if values@.contains(other) {
                let k = choose|k: int| 0 <= k < values@.len() && values@[k] == other;
                if k < position {
                    assert(earlier[k] == other);
                } else if k > position {
                    assert(earlier[k - 1] == other);
                }
            }
            if earlier.contains(other) {
                let k = choose|k: int| 0 <= k < earlier.len() && earlier[k] == other;
                if k < position {
                    assert(values@[k] == other);
                } else {
                    assert(values@[k + 1] == other);
                }
            }
            assert(values@[position as int] == value);
        }
    }
}

/// The closest container of a node, the node itself included.
pub open spec fn scope_owner(tree: SyntaxTree, id: int) -> Option<int>
    decreases id,
{
    if tree.nodes@[id].correspondence == CorrespondenceRole::HardOwner {
        Some(id)
    } else {
        match tree.nodes@[id].parent {
            Some(parent) => if parent < id {
                scope_owner(tree, parent as int)
            } else {
                None
            },
            None => None,
        }
    }
}

pub fn nearest_scope_owner(tree: &SyntaxTree, id: NodeId) -> (owner: Option<NodeId>)
    requires
        tree.wf(),
        tree.has_node(id as int),
    ensures
        match owner {
            Some(owner) => scope_owner(*tree, id as int) == Some(owner as int) && owner
                < tree.nodes@.len(),
            None => scope_owner(*tree, id as int) is None,
        },
{
    let mut at = id;
    loop
        invariant
            tree.wf(),
            tree.has_node(at as int),
            scope_owner(*tree, id as int) == scope_owner(*tree, at as int),
        decreases at,
    {
        if tree.nodes[at].is_scope_boundary() {
            return Some(at);
        }
        assert(parent_holds(tree.nodes@, at as int));
        match tree.nodes[at].parent {
            None => {
                return None;
            },
            Some(parent) => {
                at = parent;
            },
        }
    }
}

/// Every list is ascending and names nodes.
pub open spec fn owner_lists_ok(lists: Seq<Vec<usize>>, count: int) -> bool {
    &&& forall|row: int| 0 <= row < lists.len() ==> ascending(#[trigger] lists[row]@)
    &&& forall|row: int, k: int|
        0 <= row < lists.len() && 0 <= k < lists[row]@.len() ==> (#[trigger] lists[row]@[k]) < count
}

/// A leaf on the row has the node as its nearest owner.
pub open spec fn leaf_owner(tree: SyntaxTree, leaf: int, row: int, owner: int) -> bool {
    &&& tree.nodes@[leaf].leaf is Some
    &&& scope_owner(tree, leaf) == Some(owner)
    &&& row_span(tree, leaf).start <= row < row_span(tree, leaf).end
}

/// One of the first nodes is a leaf on the row with the given owner.
pub open spec fn owns_row(tree: SyntaxTree, nodes: int, row: int, owner: int) -> bool {
    exists|leaf: int| 0 <= leaf < nodes && #[trigger] leaf_owner(tree, leaf, row, owner)
}

/// Each row lists the nearest owners of its leaves.
pub open spec fn lists_owners(tree: SyntaxTree, nodes: int, lines: Seq<Vec<usize>>) -> bool {
    forall|row: int, owner: usize|
        0 <= row < lines.len() ==> (#[trigger] lines[row]@.contains(owner) <==> owns_row(
            tree,
            nodes,
            row,
            owner as int,
        ))
}

/// Map every physical row to its nearest owners, including layout-only rows.
fn scope_lines(tree: &SyntaxTree) -> (lines: Vec<Vec<usize>>)
    requires
        tree.wf(),
    ensures
        lines@.len() == tree.source.line_seq().len(),
        owner_lists_ok(lines@, tree.nodes@.len() as int),
        lists_owners(*tree, tree.nodes@.len() as int, lines@),
{
    let mut lines: Vec<Vec<usize>> = Vec::new();
    let mut fill: usize = 0;
    while fill < tree.source.line_count()
        invariant
            fill <= tree.source.line_seq().len(),
            lines@.len() == fill,
            forall|row: int| 0 <= row < lines@.len() ==> (#[trigger] lines@[row])@.len() == 0,
        decreases tree.source.line_seq().len() - fill,
    {
        lines.push(Vec::new());
        fill += 1;
    }
    let mut index: usize = 0;
    while index < tree.nodes.len()
        invariant
            tree.wf(),
            index <= tree.nodes@.len(),
            lines@.len() == tree.source.line_seq().len(),
            owner_lists_ok(lines@, tree.nodes@.len() as int),
            lists_owners(*tree, index as int, lines@),
        decreases tree.nodes@.len() - index,
    {
        let ghost before_leaf = lines@;
        if tree.nodes[index].leaf.is_some() {
            if let Some(owner) = nearest_scope_owner(tree, index) {
                let rows = zero_based_lines(tree, index);
                let mut row = rows.start;
                while row < rows.end
                    invariant
                        rows.start <= row <= rows.end,
                        lines@.len() == before_leaf.len(),
                        forall|other: int, value: usize|
                            0 <= other < lines@.len() ==> (#[trigger] lines@[other]@.contains(value)
                                <==> before_leaf[other]@.contains(value) || value == owner
                                && rows.start <= other < row),
                        rows.end <= lines@.len(),
                        lines@.len() == tree.source.line_seq().len(),
                        owner < tree.nodes@.len(),
                        owner_lists_ok(lines@, tree.nodes@.len() as int),
                    decreases rows.end - row,
                {
                    let ghost earlier = lines@;
                    insert_ascending(&mut lines[row], owner);
                    proof {
                        assert forall|other: int, k: int|
                            0 <= other < lines@.len() && 0 <= k < lines@[other]@.len() implies (
                        #[trigger] lines@[other]@[k]) < tree.nodes@.len() by {
                            if other == row {
                                let value = lines@[other]@[k];
                                assert(lines@[other]@.contains(value));
                                if value != owner {
                                    assert(earlier[other]@.contains(value));
                                    let l = choose|l: int|
                                        0 <= l < earlier[other]@.len() && earlier[other]@[l]
                                            == value;
                                    assert(earlier[other]@[l] < tree.nodes@.len());
                                }
                            } else {
                                assert(lines@[other] == earlier[other]);
                                assert(earlier[other]@[k] < tree.nodes@.len());
                            }
                        }
                        assert forall|other: int| 0 <= other < lines@.len() implies ascending(
                            #[trigger] lines@[other]@,
                        ) by {
                            if other != row {
                                assert(lines@[other] == earlier[other]);
                            }
                        }
                    }
                    row += 1;
                }
            }
        }
        proof {
            assert forall|row: int, owner: usize|
                0 <= row < lines@.len() implies (#[trigger] lines@[row]@.contains(owner)
                <==> owns_row(*tree, index + 1, row, owner as int)) by {
                assert(lines@[row]@.contains(owner) <==> before_leaf[row]@.contains(owner)
                    || leaf_owner(*tree, index as int, row, owner as int));
                assert(before_leaf[row]@.contains(owner) <==> owns_row(
                    *tree,
                    index as int,
                    row,
                    owner as int,
                ));
                if owns_row(*tree, index as int, row, owner as int) {
                    let leaf = choose|leaf: int|
                        0 <= leaf < index && #[trigger] leaf_owner(*tree, leaf, row, owner as int);
                    assert(leaf_owner(*tree, leaf, row, owner as int));
                }
                if leaf_owner(*tree, index as int, row, owner as int) {
                    assert(owns_row(*tree, index + 1, row, owner as int));
                }
                if owns_row(*tree, index + 1, row, owner as int) {
                    let leaf = choose|leaf: int|
                        0 <= leaf < index + 1 && #[trigger] leaf_owner(
                            *tree,
                            leaf,
                            row,
                            owner as int,
                        );
                    if leaf < index {
                        assert(owns_row(*tree, index as int, row, owner as int));
                    }
                }
            }
        }
        index += 1;
    }
    lines
}

/// Matched semantic scopes used to validate line and node correspondence.
pub struct ScopeProof {
    pub before_lines: Vec<Vec<usize>>,
    pub after_lines: Vec<Vec<usize>>,
    pub links: Vec<Option<ScopeLink>>,
    pub reverse_links: Vec<Option<ScopeLink>>,
    pub one_to_one: bool,
}

impl ScopeProof {
    pub open spec fn fits(self, pair: SyntaxPair) -> bool {
        &&& self.before_lines@.len() == pair.before.source.line_seq().len()
        &&& self.after_lines@.len() == pair.after.source.line_seq().len()
        &&& owner_lists_ok(self.before_lines@, pair.before.nodes@.len() as int)
        &&& owner_lists_ok(self.after_lines@, pair.after.nodes@.len() as int)
        &&& self.links@.len() == pair.before.nodes@.len()
        &&& self.reverse_links@.len() == pair.after.nodes@.len()
    }

    /// The rows list their owners, and the links are those of the scopes.
    pub open spec fn proves(self, pair: SyntaxPair, scopes: Seq<ScopeLink>) -> bool {
        &&& self.fits(pair)
        &&& lists_owners(pair.before, pair.before.nodes@.len() as int, self.before_lines@)
        &&& lists_owners(pair.after, pair.after.nodes@.len() as int, self.after_lines@)
        &&& self.one_to_one == scopes_apart(
            scopes,
            pair.before.nodes@.len() as int,
            pair.after.nodes@.len() as int,
        )
        &&& self.one_to_one ==> forall|k: int|
            0 <= k < scopes.len() ==> self.links@[(#[trigger] scopes[k]).before as int] == Some(
                scopes[k],
            ) && self.reverse_links@[scopes[k].after as int] == Some(scopes[k])
        &&& links_from(self.links@, scopes, true)
        &&& links_from(self.reverse_links@, scopes, false)
    }

    pub fn new(pair: &SyntaxPair, scopes: &Vec<ScopeLink>) -> (proofs: ScopeProof)
        requires
            pair.wf(),
        ensures
            proofs.proves(*pair, scopes@),
    {
        let before_len = pair.before.nodes.len();
        let after_len = pair.after.nodes.len();
        let mut links: Vec<Option<ScopeLink>> = no_links(before_len);
        let mut reverse_links: Vec<Option<ScopeLink>> = no_links(after_len);
        let mut one_to_one: bool = true;
        let mut index: usize = 0;
        while index < scopes.len()
            invariant
                index <= scopes@.len(),
                links@.len() == before_len,
                reverse_links@.len() == after_len,
                before_len == pair.before.nodes@.len(),
                after_len == pair.after.nodes@.len(),
                one_to_one ==> forall|k: int|
                    0 <= k < index ==> (#[trigger] scopes@[k]).before < before_len
                        && scopes@[k].after < after_len && links@[scopes@[k].before as int] == Some(
                        scopes@[k],
                    ) && reverse_links@[scopes@[k].after as int] == Some(scopes@[k]),
                one_to_one ==> scopes_apart(
                    scopes@.take(index as int),
                    before_len as int,
                    after_len as int,
                ),
                !one_to_one ==> !scopes_apart(scopes@, before_len as int, after_len as int),
                links_from(links@, scopes@, true),
                links_from(reverse_links@, scopes@, false),
                forall|i: int|
                    0 <= i < before_len && (#[trigger] links@[i]) is Some ==> scope_ends(
                        scopes@,
                        index as int,
                        true,
                        i,
                    ),
                forall|i: int|
                    0 <= i < after_len && (#[trigger] reverse_links@[i]) is Some ==> scope_ends(
                        scopes@,
                        index as int,
                        false,
                        i,
                    ),
            decreases scopes@.len() - index,
        {
            let link = scopes[index];
            assert(scopes@[index as int] == link);
            assert(scopes@.contains(link));
            if link.before >= before_len || link.after >= after_len || links[link.before].is_some()
                || reverse_links[link.after].is_some() {
                proof {
                    if link.before < before_len && link.after < after_len {
                        lemma_link_taken(
                            links@,
                            reverse_links@,
                            scopes@,
                            index as int,
                            before_len as int,
                            after_len as int,
                        );
                    }
                }
                one_to_one = false;
            } else {
                links.set(link.before, Some(link));
                reverse_links.set(link.after, Some(link));
            }
            proof {
                if one_to_one {
                    let next = scopes@.take(index + 1);
                    let earlier = scopes@.take(index as int);
                    assert forall|k: int, l: int| 0 <= k < l < next.len() implies (
                    #[trigger] next[k]).before != (#[trigger] next[l]).before && next[k].after
                        != next[l].after by {
                        assert(next[k] == scopes@[k] && earlier[k] == scopes@[k]);
                        if l < index {
                            assert(earlier[l] == next[l]);
                        }
                    }
                    assert forall|k: int| 0 <= k < next.len() implies (#[trigger] next[k]).before
                        < before_len && next[k].after < after_len by {
                        assert(next[k] == scopes@[k]);
                    }
                }
                assert(link.before < before_len && links@[link.before as int] is Some
                    ==> scope_ends(scopes@, index + 1, true, link.before as int));
                assert(link.after < after_len && reverse_links@[link.after as int] is Some
                    ==> scope_ends(scopes@, index + 1, false, link.after as int));
                assert forall|side: bool, i: int|
                    scope_ends(scopes@, index as int, side, i) implies #[trigger] scope_ends(
                    scopes@,
                    index + 1,
                    side,
                    i,
                ) by {
                    let k = choose|k: int|
                        0 <= k < index && (if side {
                            (#[trigger] scopes@[k]).before
                        } else {
                            scopes@[k].after
                        }) == i;
                    assert(0 <= k < index + 1);
                }
            }
            index += 1;
        }
        assert(scopes@.take(index as int) =~= scopes@);
        ScopeProof {
            before_lines: scope_lines(&pair.before),
            after_lines: scope_lines(&pair.after),
            links,
            reverse_links,
            one_to_one,
        }
    }

    /// Every owner of a before row has a partner, one in place where that is required.
    pub open spec fn maps(self, row: int, require_stable: bool) -> bool {
        forall|k: int|
            0 <= k < self.before_lines@[row]@.len() ==> (self.links@[(
            #[trigger] self.before_lines@[row]@[k]) as int] matches Some(link) && (require_stable
                ==> link.placement == Placement::Stable))
    }

    /// The node is the partner of an owner of a before row.
    pub open spec fn reaches(self, row: int, after: usize) -> bool {
        exists|k: int|
            0 <= k < self.before_lines@[row]@.len() && (self.links@[(
            #[trigger] self.before_lines@[row]@[k]) as int] matches Some(link) && link.after
                == after)
    }

    /// The owners of the after row are the partners of the owners of the before row.
    pub open spec fn owners_meet(self, before: int, after: int) -> bool {
        forall|owner: usize| #[trigger]
            self.after_lines@[after]@.contains(owner) <==> self.reaches(before, owner)
    }

    /// Both rows have owners, and these are partners of each other.
    pub open spec fn covers(self, line: LineLink, require_stable: bool) -> bool {
        &&& self.one_to_one
        &&& self.before_lines@[line.before as int]@.len() > 0
        &&& self.after_lines@[line.after as int]@.len() > 0
        &&& self.maps(line.before as int, require_stable)
        &&& self.owners_meet(line.before as int, line.after as int)
    }

    /// Every owner of an after row has a partner in place.
    pub open spec fn is_steady(self, row: int) -> bool {
        forall|k: int|
            0 <= k < self.after_lines@[row]@.len() ==> (self.reverse_links@[(
            #[trigger] self.after_lines@[row]@[k]) as int] matches Some(link) && link.placement
                == Placement::Stable)
    }

    /// Partners of a before row's owners, ascending; nothing where one has no partner.
    fn mapped_scopes(&self, row: usize, require_stable: bool) -> (mapped: Option<Vec<usize>>)
        requires
            row < self.before_lines@.len(),
            owner_lists_ok(self.before_lines@, self.links@.len() as int),
        ensures
            mapped is Some <==> self.maps(row as int, require_stable),
            mapped matches Some(list) ==> ascending(list@) && forall|after: usize| #[trigger]
                list@.contains(after) <==> self.reaches(row as int, after),
    {
        let mut list: Vec<usize> = Vec::new();
        let mut index: usize = 0;
        while index < self.before_lines[row].len()
            invariant
                row < self.before_lines@.len(),
                owner_lists_ok(self.before_lines@, self.links@.len() as int),
                index <= self.before_lines@[row as int]@.len(),
                ascending(list@),
                forall|k: int|
                    0 <= k < index ==> (self.links@[(
                    #[trigger] self.before_lines@[row as int]@[k]) as int] matches Some(link)
                        && list@.contains(link.after) && (require_stable ==> link.placement
                        == Placement::Stable)),
                forall|after: usize| #[trigger]
                    list@.contains(after) ==> self.reaches(row as int, after),
            decreases self.before_lines@[row as int]@.len() - index,
        {
            let owner = self.before_lines[row][index];
            assert(self.before_lines@[row as int]@[index as int] == owner);
            match self.links[owner] {
                None => {
                    return None;
                },
                Some(link) => {
                    if require_stable && link.placement != Placement::Stable {
                        return None;
                    }
                    insert_ascending(&mut list, link.after);
                    assert(self.reaches(row as int, link.after));
                },
            }
            index += 1;
        }
        Some(list)
    }

    /// Whether the owners of both rows are partners of each other.
    pub fn line_has_scoped_cover(&self, line: LineLink, require_stable: bool) -> (covered: bool)
        requires
            line.before < self.before_lines@.len(),
            line.after < self.after_lines@.len(),
            owner_lists_ok(self.before_lines@, self.links@.len() as int),
            owner_lists_ok(self.after_lines@, self.reverse_links@.len() as int),
        ensures
            covered == self.covers(line, require_stable),
    {
        if !self.one_to_one || self.before_lines[line.before].len() == 0
            || self.after_lines[line.after].len() == 0 {
            return false;
        }
        match self.mapped_scopes(line.before, require_stable) {
            None => false,
            Some(mapped) => {
                proof {
                    let owners = self.after_lines@[line.after as int]@;
                    if self.owners_meet(line.before as int, line.after as int) {
                        assert forall|value: usize| mapped@.contains(value)
                            <==> #[trigger] owners.contains(value) by {}
                        lemma_ascending_unique(mapped@, owners);
                    }
                    if mapped@ == owners {
                        assert forall|owner: usize| #[trigger]
                            self.after_lines@[line.after as int]@.contains(owner)
                                <==> self.reaches(line.before as int, owner) by {
                            assert(mapped@.contains(owner) <==> owners.contains(owner));
                        }
                    }
                }
                same_values(&mapped, &self.after_lines[line.after])
            },
        }
    }

    /// Partners of a before row's owners, where it has owners and all of them are stable.
    pub fn stable_before_line_scopes(&self, row: usize) -> (scopes: Option<Vec<usize>>)
        requires
            row < self.before_lines@.len(),
            owner_lists_ok(self.before_lines@, self.links@.len() as int),
        ensures
            scopes is Some <==> self.before_lines@[row as int]@.len() > 0 && self.maps(
                row as int,
                true,
            ),
            scopes matches Some(list) ==> ascending(list@) && forall|after: usize| #[trigger]
                list@.contains(after) <==> self.reaches(row as int, after),
    {
        if self.before_lines[row].len() == 0 {
            return None;
        }
        self.mapped_scopes(row, true)
    }

    /// Owners of an after row, where it has owners and all of them have stable partners.
    pub fn stable_after_line_scopes(&self, row: usize) -> (scopes: Option<Vec<usize>>)
        requires
            row < self.after_lines@.len(),
            owner_lists_ok(self.after_lines@, self.reverse_links@.len() as int),
        ensures
            scopes is Some <==> self.after_lines@[row as int]@.len() > 0 && self.is_steady(
                row as int,
            ),
            scopes matches Some(list) ==> list@ == self.after_lines@[row as int]@,
    {
        if self.after_lines[row].len() == 0 {
            return None;
        }
        let mut list: Vec<usize> = Vec::new();
        let mut index: usize = 0;
        while index < self.after_lines[row].len()
            invariant
                row < self.after_lines@.len(),
                owner_lists_ok(self.after_lines@, self.reverse_links@.len() as int),
                index <= self.after_lines@[row as int]@.len(),
                list@ == self.after_lines@[row as int]@.take(index as int),
                forall|k: int|
                    0 <= k < index ==> (self.reverse_links@[(
                    #[trigger] self.after_lines@[row as int]@[k]) as int] matches Some(link)
                        && link.placement == Placement::Stable),
            decreases self.after_lines@[row as int]@.len() - index,
        {
            let owner = self.after_lines[row][index];
            assert(self.after_lines@[row as int]@[index as int] == owner);
            let stable = match self.reverse_links[owner] {
                Some(link) => link.placement == Placement::Stable,
                None => false,
            };
            if !stable {
                return None;
            }
            list.push(owner);
            assert(list@ =~= self.after_lines@[row as int]@.take(index + 1));
            index += 1;
        }
        assert(self.after_lines@[row as int]@.take(index as int)
            =~= self.after_lines@[row as int]@);
        Some(list)
    }
}

/// Ascending lists with the same values are equal.
pub proof fn lemma_ascending_unique(left: Seq<usize>, right: Seq<usize>)
    requires
        ascending(left),
        ascending(right),
        forall|value: usize| left.contains(value) <==> #[trigger] right.contains(value),
    ensures
        left == right,
    decreases left.len(),
{
    if left.len() == 0 {
        if right.len() > 0 {
            assert(right.contains(right[0]));
        }
        assert(left =~= right);
    } else {
        assert(left.contains(left.last()));
        assert(right.contains(left.last()));
        let top = right.last();
        assert(right.contains(top));
        assert(left.contains(top));
        let i = choose|i: int| 0 <= i < left.len() && left[i] == top;
        let j = choose|j: int| 0 <= j < right.len() && right[j] == left.last();
        assert(top == left.last()) by {
            if i < left.len() - 1 {
                assert(left[i] < left[left.len() - 1]);
            }
            if j < right.len() - 1 {
                assert(right[j] < right[right.len() - 1]);
            }
        }
        let short = left.drop_last();
        let other = right.drop_last();
        assert forall|value: usize| short.contains(value)
            <==> #[trigger] other.contains(value) by {
            if short.contains(value) {
                let k = choose|k: int| 0 <= k < short.len() && short[k] == value;
                assert(left[k] == value && left[k] < left[left.len() - 1]);
                assert(left.contains(value));
                assert(right.contains(value));
                let l = choose|l: int| 0 <= l < right.len() && right[l] == value;
                assert(other[l] == value);
            }
            if other.contains(value) {
                let k = choose|k: int| 0 <= k < other.len() && other[k] == value;
                assert(right[k] == value && right[k] < right[right.len() - 1]);
                assert(right.contains(value));
                assert(left.contains(value));
                let l = choose|l: int| 0 <= l < left.len() && left[l] == value;
                assert(short[l] == value);
            }
        }
        lemma_ascending_unique(short, other);
        assert(left =~= short.push(top));
        assert(right =~= other.push(top));
    }
}

/// Scopes in range, of which no two share an end.
pub open spec fn scopes_apart(scopes: Seq<ScopeLink>, before_len: int, after_len: int) -> bool {
    &&& forall|k: int|
        0 <= k < scopes.len() ==> (#[trigger] scopes[k]).before < before_len && scopes[k].after
            < after_len
    &&& forall|k: int, l: int|
        0 <= k < l < scopes.len() ==> (#[trigger] scopes[k]).before != (#[trigger] scopes[l]).before
            && scopes[k].after != scopes[l].after
}

/// Every entry is a scope that ends at its node.
pub open spec fn links_from(
    table: Seq<Option<ScopeLink>>,
    scopes: Seq<ScopeLink>,
    before: bool,
) -> bool {
    forall|i: int|
        0 <= i < table.len() ==> ((#[trigger] table[i]) matches Some(link) ==> scopes.contains(link)
            && (if before {
            link.before
        } else {
            link.after
        }) == i)
}

/// One of the first scopes ends at the node.
spec fn scope_ends(scopes: Seq<ScopeLink>, count: int, before: bool, node: int) -> bool {
    exists|k: int|
        0 <= k < count && (if before {
            (#[trigger] scopes[k]).before
        } else {
            scopes[k].after
        }) == node
}

/// A taken end belongs to an earlier scope, so the scopes are not apart.
proof fn lemma_link_taken(
    links: Seq<Option<ScopeLink>>,
    reverse_links: Seq<Option<ScopeLink>>,
    scopes: Seq<ScopeLink>,
    index: int,
    before_len: int,
    after_len: int,
)
    requires
        0 <= index < scopes.len(),
        links.len() == before_len,
        reverse_links.len() == after_len,
        forall|i: int|
            0 <= i < before_len && (#[trigger] links[i]) is Some ==> scope_ends(
                scopes,
                index,
                true,
                i,
            ),
        forall|i: int|
            0 <= i < after_len && (#[trigger] reverse_links[i]) is Some ==> scope_ends(
                scopes,
                index,
                false,
                i,
            ),
        scopes[index].before < before_len && links[scopes[index].before as int] is Some
            || scopes[index].after < after_len
            && reverse_links[scopes[index].after as int] is Some,
    ensures
        !scopes_apart(scopes, before_len, after_len),
{
    if scopes[index].before < before_len && links[scopes[index].before as int] is Some {
        assert(scope_ends(scopes, index, true, scopes[index].before as int));
        let k = choose|k: int|
            0 <= k < index && (#[trigger] scopes[k]).before == scopes[index].before;
        assert(scopes[k].before == scopes[index].before);
    } else {
        assert(scope_ends(scopes, index, false, scopes[index].after as int));
        let k = choose|k: int| 0 <= k < index && (#[trigger] scopes[k]).after == scopes[index].after;
        assert(scopes[k].after == scopes[index].after);
    }
}

/// No node has a link.
fn no_links(len: usize) -> (links: Vec<Option<ScopeLink>>)
    ensures
        links@.len() == len,
        forall|i: int| 0 <= i < len ==> (#[trigger] links@[i]) is None,
{
    let mut links: Vec<Option<ScopeLink>> = Vec::new();
    let mut index: usize = 0;
    while index < len
        invariant
            index <= len,
            links@.len() == index,
            forall|i: int| 0 <= i < index ==> (#[trigger] links@[i]) is None,
        decreases len - index,
    {
        links.push(None);
        index += 1;
    }
    links
}

/// Whether two lists hold the same values.
pub fn same_values(left: &Vec<usize>, right: &Vec<usize>) -> (same: bool)
    ensures
        same == (left@ == right@),
{
    if left.len() != right.len() {
        return false;
    }
    let mut index: usize = 0;
    while index < left.len()
        invariant
            index <= left@.len(),
            left@.len() == right@.len(),
            forall|k: int| 0 <= k < index ==> left@[k] == right@[k],
        decreases left@.len() - index,
    {
        if left[index] != right[index] {
            return false;
        }
        index += 1;
    }
    assert(left@ =~= right@);
    true
}

} // verus!

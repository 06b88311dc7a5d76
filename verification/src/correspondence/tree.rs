//! Syntax matches between two revisions.

use crate::correspondence::links::{
    LeafLink, MatchedUnit, NodeLink, RelocatedNode, ScopeLink, UnitEdit,
};
use crate::correspondence::partners::nothing;
use crate::syntax::NodeId;
use vstd::prelude::*;

verus! {

/// Leaf pairs with at most one partner per node in either revision.
pub struct LeafCorrespondence {
    pub links: Vec<LeafLink>,
    pub before: Vec<Option<usize>>,
    pub after: Vec<Option<usize>>,
}

/// The tables name exactly the link of each node.
pub open spec fn leaf_tables_agree(
    links: Seq<LeafLink>,
    before: Seq<Option<usize>>,
    after: Seq<Option<usize>>,
) -> bool {
    &&& forall|k: int|
        0 <= k < links.len() ==> (#[trigger] links[k]).before < before.len() && links[k].after
            < after.len() && before[links[k].before as int] == Some(k as usize)
            && after[links[k].after as int] == Some(k as usize)
    &&& forall|i: int|
        0 <= i < before.len() ==> ((#[trigger] before[i]) matches Some(k) ==> k < links.len()
            && links[k as int].before == i)
    &&& forall|j: int|
        0 <= j < after.len() ==> ((#[trigger] after[j]) matches Some(k) ==> k < links.len()
            && links[k as int].after == j)
}

/// A leaf occurs in at most one link of either revision.
pub proof fn law_leaf_links_are_one_to_one(leaves: LeafCorrespondence, k: int, l: int)
    requires
        leaves.wf(),
        leaves.links@.len() <= usize::MAX,
        0 <= k < leaves.links@.len(),
        0 <= l < leaves.links@.len(),
        leaves.links@[k].before == leaves.links@[l].before || leaves.links@[k].after
            == leaves.links@[l].after,
    ensures
        k == l,
{
}

impl LeafCorrespondence {
    pub open spec fn wf(self) -> bool {
        leaf_tables_agree(self.links@, self.before@, self.after@)
    }

    /// No pairs yet.
    pub fn new(before_len: usize, after_len: usize) -> (leaves: LeafCorrespondence)
        ensures
            leaves.wf(),
            leaves.links@.len() == 0,
            leaves.before@.len() == before_len,
            leaves.after@.len() == after_len,
    {
        LeafCorrespondence {
            links: Vec::new(),
            before: nothing(before_len),
            after: nothing(after_len),
        }
    }

    /// Claim a leaf pair, returning false if either node already has a different link.
    /// Identical claims succeed without adding another link.
    pub fn push_leaf_link(&mut self, link: LeafLink) -> (accepted: bool)
        requires
            old(self).wf(),
            link.before < old(self).before@.len(),
            link.after < old(self).after@.len(),
        ensures
            final(self).wf(),
            final(self).before@.len() == old(self).before@.len(),
            final(self).after@.len() == old(self).after@.len(),
            accepted <==> final(self).links@.contains(link),
            old(self).before@[link.before as int] is None && old(self).after@[link.after as int] is None
                ==> final(self).links@ == old(self).links@.push(link) && final(self).before@
                == old(self).before@.update(
                link.before as int,
                Some(old(self).links@.len() as usize),
            ) && final(self).after@ == old(self).after@.update(
                link.after as int,
                Some(old(self).links@.len() as usize),
            ),
            old(self).before@[link.before as int] is Some
                || old(self).after@[link.after as int] is Some ==> *final(self) == *old(self),
    {
        let before = self.before[link.before];
        let after = self.after[link.after];
        if before.is_some() || after.is_some() {
            if let (Some(left), Some(right)) = (before, after) {
                let same = left == right && self.links[left] == link;
                proof {
                    if same {
                        assert(self.links@[left as int] == link);
                    }
                    if self.links@.contains(link) {
                        let k = choose|k: int| 0 <= k < self.links@.len() && self.links@[k] == link;
                        assert(self.links.len() <= usize::MAX);
                        assert(self.before@[link.before as int] == Some(k as usize));
                        assert(self.after@[link.after as int] == Some(k as usize));
                        assert(self.links@[left as int] == link);
                    }
                }
                return same;
            }
            proof {
                if self.links@.contains(link) {
                    let k = choose|k: int| 0 <= k < self.links@.len() && self.links@[k] == link;
                    assert(self.before@[link.before as int] == Some(k as usize));
                }
            }
            return false;
        }
        let index = self.links.len();
        let ghost earlier = *self;
        self.before.set(link.before, Some(index));
        self.after.set(link.after, Some(index));
        self.links.push(link);
        assert(self.links@[index as int] == link);
        proof {
            assert forall|k: int| 0 <= k < self.links@.len() implies (
            #[trigger] self.links@[k]).before < self.before@.len() && self.links@[k].after
                < self.after@.len() && self.before@[self.links@[k].before as int] == Some(
                k as usize,
            ) && self.after@[self.links@[k].after as int] == Some(k as usize) by {
                if k < index {
                    assert(self.links@[k] == earlier.links@[k]);
                }
            }
        }
        true
    }
}

/// Paired containers with at most one partner per node in either revision.
pub struct ScopeTable {
    pub links: Vec<ScopeLink>,
    pub before: Vec<Option<usize>>,
    pub after: Vec<Option<usize>>,
}

/// The tables name exactly the link of each node.
pub open spec fn scope_tables_agree(
    links: Seq<ScopeLink>,
    before: Seq<Option<usize>>,
    after: Seq<Option<usize>>,
) -> bool {
    &&& forall|k: int|
        0 <= k < links.len() ==> (#[trigger] links[k]).before < before.len() && links[k].after
            < after.len() && before[links[k].before as int] == Some(k as usize)
            && after[links[k].after as int] == Some(k as usize)
    &&& forall|i: int|
        0 <= i < before.len() ==> ((#[trigger] before[i]) matches Some(k) ==> k < links.len()
            && links[k as int].before == i)
    &&& forall|j: int|
        0 <= j < after.len() ==> ((#[trigger] after[j]) matches Some(k) ==> k < links.len()
            && links[k as int].after == j)
}

/// A container occurs in at most one scope link of either revision.
pub proof fn law_scope_links_are_one_to_one(scopes: ScopeTable, k: int, l: int)
    requires
        scopes.wf(),
        scopes.links@.len() <= usize::MAX,
        0 <= k < scopes.links@.len(),
        0 <= l < scopes.links@.len(),
        scopes.links@[k].before == scopes.links@[l].before || scopes.links@[k].after
            == scopes.links@[l].after,
    ensures
        k == l,
{
}

impl ScopeTable {
    pub open spec fn wf(self) -> bool {
        scope_tables_agree(self.links@, self.before@, self.after@)
    }

    /// No pairs yet.
    pub fn new(before_len: usize, after_len: usize) -> (scopes: ScopeTable)
        ensures
            scopes.wf(),
            scopes.links@.len() == 0,
            scopes.before@.len() == before_len,
            scopes.after@.len() == after_len,
            forall|i: int| 0 <= i < before_len ==> (#[trigger] scopes.before@[i]) is None,
            forall|i: int| 0 <= i < after_len ==> (#[trigger] scopes.after@[i]) is None,
    {
        ScopeTable { links: Vec::new(), before: nothing(before_len), after: nothing(after_len) }
    }

    /// Claim a scope pair, returning false if either node already has a different link.
    /// Identical claims succeed without adding another link.
    pub fn push_scope_link(&mut self, link: ScopeLink) -> (accepted: bool)
        requires
            old(self).wf(),
            link.before < old(self).before@.len(),
            link.after < old(self).after@.len(),
        ensures
            final(self).wf(),
            final(self).before@.len() == old(self).before@.len(),
            final(self).after@.len() == old(self).after@.len(),
            accepted <==> final(self).links@.contains(link),
            old(self).before@[link.before as int] is None && old(self).after@[link.after as int] is None
                ==> final(self).links@ == old(self).links@.push(link) && final(self).before@
                == old(self).before@.update(
                link.before as int,
                Some(old(self).links@.len() as usize),
            ) && final(self).after@ == old(self).after@.update(
                link.after as int,
                Some(old(self).links@.len() as usize),
            ),
            old(self).before@[link.before as int] is Some
                || old(self).after@[link.after as int] is Some ==> *final(self) == *old(self),
    {
        let before = self.before[link.before];
        let after = self.after[link.after];
        if before.is_some() || after.is_some() {
            if let (Some(left), Some(right)) = (before, after) {
                let same = left == right && self.links[left] == link;
                proof {
                    if same {
                        assert(self.links@[left as int] == link);
                    }
                    if self.links@.contains(link) {
                        let k = choose|k: int| 0 <= k < self.links@.len() && self.links@[k] == link;
                        assert(self.links.len() <= usize::MAX);
                        assert(self.before@[link.before as int] == Some(k as usize));
                        assert(self.after@[link.after as int] == Some(k as usize));
                        assert(self.links@[left as int] == link);
                    }
                }
                return same;
            }
            proof {
                if self.links@.contains(link) {
                    let k = choose|k: int| 0 <= k < self.links@.len() && self.links@[k] == link;
                    assert(self.before@[link.before as int] == Some(k as usize));
                }
            }
            return false;
        }
        let index = self.links.len();
        let ghost earlier = *self;
        self.before.set(link.before, Some(index));
        self.after.set(link.after, Some(index));
        self.links.push(link);
        assert(self.links@[index as int] == link);
        proof {
            assert forall|k: int| 0 <= k < self.links@.len() implies (
            #[trigger] self.links@[k]).before < self.before@.len() && self.links@[k].after
                < self.after@.len() && self.before@[self.links@[k].before as int] == Some(
                k as usize,
            ) && self.after@[self.links@[k].after as int] == Some(k as usize) by {
                if k < index {
                    assert(self.links@[k] == earlier.links@[k]);
                }
            }
        }
        true
    }

    /// Forget every pair from an index on.
    pub fn forget_from(&mut self, start: usize)
        requires
            old(self).wf(),
            start <= old(self).links@.len(),
        ensures
            final(self).wf(),
            final(self).links@ == old(self).links@.take(start as int),
            final(self).before@.len() == old(self).before@.len(),
            final(self).after@.len() == old(self).after@.len(),
    {
        let ghost original = self.links@;
        while self.links.len() > start
            invariant
                self.wf(),
                start <= self.links@.len() <= original.len(),
                self.links@ == original.take(self.links@.len() as int),
                self.before@.len() == old(self).before@.len(),
                self.after@.len() == old(self).after@.len(),
            decreases self.links@.len(),
        {
            let index = self.links.len() - 1;
            let link = self.links[index];
            let ghost earlier = *self;
            self.before.set(link.before, None);
            self.after.set(link.after, None);
            self.links.truncate(index);
            proof {
                assert(self.links@ =~= original.take(index as int));
                assert forall|k: int| 0 <= k < self.links@.len() implies (
                #[trigger] self.links@[k]).before < self.before@.len() && self.links@[k].after
                    < self.after@.len() && self.before@[self.links@[k].before as int] == Some(
                    k as usize,
                ) && self.after@[self.links@[k].after as int] == Some(k as usize) by {
                    assert(self.links@[k] == earlier.links@[k]);
                }
                assert forall|i: int| 0 <= i < self.before@.len() implies ((
                #[trigger] self.before@[i]) matches Some(k) ==> k < self.links@.len()
                    && self.links@[k as int].before == i) by {
                    if self.before@[i] is Some {
                        assert(earlier.before@[i] == self.before@[i]);
                        if self.before@[i] == Some(index) {
                            assert(earlier.links@[index as int].before == i);
                        }
                    }
                }
                assert forall|j: int| 0 <= j < self.after@.len() implies ((
                #[trigger] self.after@[j]) matches Some(k) ==> k < self.links@.len()
                    && self.links@[k as int].after == j) by {
                    if self.after@[j] is Some {
                        assert(earlier.after@[j] == self.after@[j]);
                        if self.after@[j] == Some(index) {
                            assert(earlier.links@[index as int].after == j);
                        }
                    }
                }
            }
        }
    }
}

/// Syntax matches retained even where source projection falls back to linewise review.
pub struct TreeDiff {
    pub units: Vec<UnitEdit>,
    pub leaves: LeafCorrespondence,
    pub composites: Vec<NodeLink>,
    pub relocations: Vec<RelocatedNode>,
    pub scopes: Vec<ScopeLink>,
}

/// A unit edit names nodes and links that exist.
pub open spec fn edit_fits(
    edit: UnitEdit,
    before_len: int,
    after_len: int,
    leaf_count: int,
    composite_count: int,
) -> bool {
    match edit {
        UnitEdit::Matched(unit) => {
            &&& unit.before < before_len
            &&& unit.after < after_len
            &&& unit.leaf_links.start <= unit.leaf_links.end <= leaf_count
            &&& unit.composites.start <= unit.composites.end <= composite_count
        },
        UnitEdit::Removed { before } => before < before_len,
        UnitEdit::Added { after } => after < after_len,
    }
}

/// Exact named subtrees name nodes that exist.
pub open spec fn composites_fit(composites: Seq<NodeLink>, before_len: int, after_len: int) -> bool {
    forall|k: int|
        0 <= k < composites.len() ==> (#[trigger] composites[k]).before < before_len
            && composites[k].after < after_len
}

impl TreeDiff {
    /// Every id is a node, every range lies in its list, and leaf links are one-to-one.
    pub open spec fn fits(self, before_len: int, after_len: int) -> bool {
        &&& self.leaves.wf()
        &&& self.leaves.before@.len() == before_len
        &&& self.leaves.after@.len() == after_len
        &&& composites_fit(self.composites@, before_len, after_len)
        &&& forall|k: int|
            0 <= k < self.relocations@.len() ==> (#[trigger] self.relocations@[k]).before
                < before_len && self.relocations@[k].after < after_len
        &&& forall|k: int|
            0 <= k < self.scopes@.len() ==> (#[trigger] self.scopes@[k]).before < before_len
                && self.scopes@[k].after < after_len
        &&& forall|k: int|
            0 <= k < self.units@.len() ==> edit_fits(
                #[trigger] self.units@[k],
                before_len,
                after_len,
                self.leaves.links@.len() as int,
                self.composites@.len() as int,
            )
    }

    /// Leaf links that one matched unit added.
    pub fn unit_leaf_links(&self, unit: &MatchedUnit) -> (links: &[LeafLink])
        requires
            unit.leaf_links.start <= unit.leaf_links.end <= self.leaves.links@.len(),
        ensures
            links@ == self.leaves.links@.subrange(
                unit.leaf_links.start as int,
                unit.leaf_links.end as int,
            ),
    {
        vstd::slice::slice_subrange(
            self.leaves.links.as_slice(),
            unit.leaf_links.start,
            unit.leaf_links.end,
        )
    }

    /// Every leaf link.
    pub fn leaf_links(&self) -> (links: &[LeafLink])
        ensures
            links@ == self.leaves.links@,
    {
        self.leaves.links.as_slice()
    }

    /// Exact subtrees that one matched unit added.
    pub fn unit_composites(&self, unit: &MatchedUnit) -> (links: &[NodeLink])
        requires
            unit.composites.start <= unit.composites.end <= self.composites@.len(),
        ensures
            links@ == self.composites@.subrange(
                unit.composites.start as int,
                unit.composites.end as int,
            ),
    {
        vstd::slice::slice_subrange(
            self.composites.as_slice(),
            unit.composites.start,
            unit.composites.end,
        )
    }

    /// Exact subtrees transferred between surviving owners.
    pub fn relocated_nodes(&self) -> (nodes: &[RelocatedNode])
        ensures
            nodes@ == self.relocations@,
    {
        self.relocations.as_slice()
    }

    /// The link of an after leaf.
    pub fn after_leaf_link(&self, node: NodeId) -> (link: Option<&LeafLink>)
        requires
            self.leaves.wf(),
        ensures
            match link {
                Some(link) => self.leaves.links@.contains(*link) && link.after == node,
                None => forall|k: int|
                    0 <= k < self.leaves.links@.len() ==> (#[trigger] self.leaves.links@[k]).after
                        != node,
            },
    {
        if node >= self.leaves.after.len() {
            return None;
        }
        match self.leaves.after[node] {
            Some(index) => Some(&self.leaves.links[index]),
            None => None,
        }
    }

    /// The link of a before leaf.
    pub fn before_leaf_link(&self, node: NodeId) -> (link: Option<&LeafLink>)
        requires
            self.leaves.wf(),
        ensures
            match link {
                Some(link) => self.leaves.links@.contains(*link) && link.before == node,
                None => forall|k: int|
                    0 <= k < self.leaves.links@.len() ==> (#[trigger] self.leaves.links@[k]).before
                        != node,
            },
    {
        if node >= self.leaves.before.len() {
            return None;
        }
        match self.leaves.before[node] {
            Some(index) => Some(&self.leaves.links[index]),
            None => None,
        }
    }
}

} // verus!

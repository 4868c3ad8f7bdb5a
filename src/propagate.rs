use vstd::prelude::*;

use crate::quadtree::{Quadtree, ROOT};

verus! {

impl<Q, P> Quadtree<Q, P> {
    /// `other` has the same arena links, regions, body indices and recorded
    /// parents as `self`, and the same point in every leaf.
    pub open spec fn same_shape(self, other: Self) -> bool {
        &&& other.nodes@.len() == self.nodes@.len()
        &&& other.parents@ == self.parents@
        &&& forall|i: int|
            0 <= i < self.nodes@.len() ==> {
                &&& (#[trigger] other.nodes@[i]).children == self.nodes@[i].children
                &&& other.nodes@[i].next == self.nodes@[i].next
                &&& other.nodes@[i].body_index == self.nodes@[i].body_index
                &&& other.nodes@[i].quad == self.nodes@[i].quad
                &&& self.nodes@[i].children == 0 ==> other.nodes@[i].point
                    == self.nodes@[i].point
            }
    }

    /// Internal node `i` holds what `combine` gives for its four children.
    pub open spec fn combined<C>(self, i: int, combine: C) -> bool
        where
            C: Fn(&Option<P>, &Option<P>, &Option<P>, &Option<P>) -> Option<P>,
    {
        let c = self.nodes@[i].children as int;
        combine.ensures(
            (
                &self.nodes@[c].point,
                &self.nodes@[c + 1].point,
                &self.nodes@[c + 2].point,
                &self.nodes@[c + 3].point,
            ),
            self.nodes@[i].point,
        )
    }
}

impl<Q: Copy, P: Copy> Quadtree<Q, P> {
    /// Recomputes each internal node's point from its four children with
    /// `combine`, visiting `parents` from last to first so that every child
    /// is final before its parent reads it. Leaves and links are untouched.
    pub fn propagate<C>(&mut self, combine: C)
        where
            C: Fn(&Option<P>, &Option<P>, &Option<P>, &Option<P>) -> Option<P>,
        requires
            old(self).wf(),
            forall|a: &Option<P>, b: &Option<P>, c: &Option<P>, d: &Option<P>| #[trigger]
                combine.requires((a, b, c, d)),
        ensures
            final(self).wf(),
            old(self).same_shape(*final(self)),
            forall|i: int|
                0 <= i < final(self).nodes@.len() && (#[trigger] final(self).nodes@[i]).children
                    != 0 ==> final(self).combined(i, combine),
    {
        let ghost old_tree = *self;
        let mut k = self.parents.len();
        while k > 0
            invariant
                self.wf(),
                old_tree.same_shape(*self),
                old_tree == *old(self),
                k <= self.parents@.len(),
                forall|a: &Option<P>, b: &Option<P>, c: &Option<P>, d: &Option<P>| #[trigger]
                    combine.requires((a, b, c, d)),
                forall|j: int|
                    k <= j < self.parents@.len() ==> self.combined(
                        #[trigger] self.parents@[j] as int,
                        combine,
                    ),
            decreases k,
        {
            k = k - 1;
            let p = self.parents[k];
            let c = self.nodes[p].children as usize;
            let v = combine(
                &self.nodes[c].point,
                &self.nodes[c + 1].point,
                &self.nodes[c + 2].point,
                &self.nodes[c + 3].point,
            );
            let ghost before = *self;
            let b = self.nodes[p].body_index;
            self.set_payload(p, v, b);
            proof {
                assert(self.nodes@[p as int].children == before.nodes@[p as int].children);
                assert forall|j: int| k <= j < self.parents@.len() implies self.combined(
                    #[trigger] self.parents@[j] as int,
                    combine,
                ) by {
                    if j > k {
                        let pj = self.parents@[j] as int;
                        assert(before.combined(pj, combine));
                        assert(pj != p);
                        assert(!self.child_of(p as int, pj));
                        let cj = self.nodes@[pj].children as int;
                        assert(self.nodes@[cj] == before.nodes@[cj]);
                        assert(self.nodes@[cj + 1] == before.nodes@[cj + 1]);
                        assert(self.nodes@[cj + 2] == before.nodes@[cj + 2]);
                        assert(self.nodes@[cj + 3] == before.nodes@[cj + 3]);
                    }
                }
                assert forall|i: int| 0 <= i < self.nodes@.len() implies {
                    &&& (#[trigger] self.nodes@[i]).children == old_tree.nodes@[i].children
                    &&& self.nodes@[i].next == old_tree.nodes@[i].next
                    &&& self.nodes@[i].body_index == old_tree.nodes@[i].body_index
                    &&& self.nodes@[i].quad == old_tree.nodes@[i].quad
                    &&& old_tree.nodes@[i].children == 0 ==> self.nodes@[i].point
                        == old_tree.nodes@[i].point
                } by {
                    assert(old_tree.same_shape(before));
                    assert(before.nodes@[i].children == old_tree.nodes@[i].children);
                }
            }
        }
        proof {
            assert forall|i: int|
                0 <= i < self.nodes@.len() && (#[trigger] self.nodes@[i]).children != 0 implies self.combined(i, combine) by {
                let k = choose|k: int| 0 <= k < self.parents@.len() && #[trigger] self.parents@[k] == i;
                assert(self.combined(self.parents@[k] as int, combine));
            }
        }
    }
}

/// A freshly cleared tree has no internal node, so propagation leaves it as
/// a single node that holds no mass.
pub proof fn lemma_propagate_cleared<Q, P>(cleared: Quadtree<Q, P>, propagated: Quadtree<Q, P>)
    requires
        cleared.nodes@.len() == 1,
        cleared.nodes@[ROOT as int].children == 0,
        cleared.nodes@[ROOT as int].point.is_none(),
        cleared.same_shape(propagated),
    ensures
        propagated.nodes@.len() == 1,
        propagated.nodes@[ROOT as int].point.is_none(),
{
    assert(propagated.nodes@[ROOT as int].children == 0);
}

} // verus!

use vstd::prelude::*;

use crate::quadtree::{Node, Quadtree, NO_BODY, ROOT};

verus! {

impl<Q, P> Quadtree<Q, P> {
    /// The node a walk visits after visiting `s.0`: its first child when it
    /// is internal and `s.1` holds, its skip link otherwise.
    pub open spec fn successor(self, s: (usize, bool)) -> usize {
        if self.descends(s) {
            self.nodes@[s.0 as int].children as usize
        } else {
            self.nodes@[s.0 as int].next as usize
        }
    }

    /// The walk descends into `s.0`.
    pub open spec fn descends(self, s: (usize, bool)) -> bool {
        s.1 && self.nodes@[s.0 as int].children != 0
    }

    /// The walk goes on after visiting `s.0`.
    pub open spec fn continues(self, s: (usize, bool)) -> bool {
        self.descends(s) || self.nodes@[s.0 as int].next != 0
    }

    /// The walk `t` goes on after entry `k`, and entry `k + 1` follows from it.
    pub open spec fn steps_to(self, t: Seq<(usize, bool)>, k: int) -> bool {
        &&& self.continues(t[k])
        &&& t[k + 1].0 == self.successor(t[k])
    }

    /// `t` is a complete pre-order walk from the root: each entry is a node
    /// and whether the walk opened it, and the walk stops at a node it does
    /// not descend into whose skip link is 0.
    pub open spec fn is_walk(self, t: Seq<(usize, bool)>) -> bool {
        &&& t.len() > 0
        &&& t[0].0 == ROOT
        &&& forall|k: int| 0 <= k < t.len() ==> (#[trigger] t[k]).0 < self.nodes@.len()
        &&& forall|k: int| 0 <= k < t.len() - 1 ==> #[trigger] self.steps_to(t, k)
        &&& !self.continues(t.last())
    }

    /// The nodes of the walk `t` that it did not descend into, in order.
    pub open spec fn skipped(self, t: Seq<(usize, bool)>) -> Seq<usize>
        decreases t.len(),
    {
        if t.len() == 0 {
            Seq::empty()
        } else if self.descends(t.last()) {
            self.skipped(t.drop_last())
        } else {
            self.skipped(t.drop_last()).push(t.last().0)
        }
    }

    /// The bodies of the occupied leaves that the walk `t` opened, other
    /// than `body_idx`, in order.
    pub open spec fn hits(self, t: Seq<(usize, bool)>, body_idx: u32) -> Seq<u32>
        decreases t.len(),
    {
        if t.len() == 0 {
            Seq::empty()
        } else {
            let s = t.last();
            let n = self.nodes@[s.0 as int];
            if s.1 && n.children == 0 && n.point.is_some() && n.body_index != body_idx {
                self.hits(t.drop_last(), body_idx).push(n.body_index)
            } else {
                self.hits(t.drop_last(), body_idx)
            }
        }
    }

    /// Every entry of the walk `t` opened its node exactly where `overlaps`
    /// accepted the node's region.
    pub open spec fn overlapped_by<F>(self, t: Seq<(usize, bool)>, overlaps: F) -> bool
        where
            F: Fn(&Q) -> bool,
    {
        forall|k: int|
            0 <= k < t.len() ==> overlaps.ensures(
                (&self.nodes@[(#[trigger] t[k]).0 as int].quad,),
                t[k].1,
            )
    }

    /// Every choice of the walk `t` at an internal node is what `open` said.
    pub open spec fn chosen_by<F>(self, t: Seq<(usize, bool)>, open: F) -> bool
        where
            F: Fn(&Node<Q, P>) -> bool,
    {
        forall|k: int|
            0 <= k < t.len() && self.nodes@[(#[trigger] t[k]).0 as int].children != 0 ==> open.ensures(
                (&self.nodes@[t[k].0 as int],),
                t[k].1,
            )
    }
}

impl<Q: Copy, P: Copy> Quadtree<Q, P> {
    /// The node a walk visits after `node`: its first child when it is
    /// internal and the walk descends, otherwise its skip link, where 0 ends
    /// the walk.
    pub(crate) fn advance(&self, node: usize, descend: bool) -> (r: Option<usize>)
        requires
            self.wf(),
            node < self.nodes@.len(),
        ensures
            r == (if self.continues((node, descend)) {
                Some(self.successor((node, descend)))
            } else {
                None
            }),
            r matches Some(x) ==> x < self.nodes@.len() && self.rank@[node as int] < self.rank@[x as int],
    {
        let n = &self.nodes[node];
        if descend && n.children != 0 {
            Some(n.children as usize)
        } else if n.next == 0 {
            None
        } else {
            Some(n.next as usize)
        }
    }

    /// Walks the tree in pre-order from the root, descending into an internal
    /// node only where `open` says so and otherwise skipping its subtree by
    /// its skip link. Returns the nodes the walk did not descend into, in the
    /// order visited: leaves, and internal nodes that `open` rejected.
    pub fn frontier<F>(&self, open: F) -> (r: Vec<usize>)
        where
            F: Fn(&Node<Q, P>) -> bool,
        requires
            self.wf(),
            forall|n: &Node<Q, P>| #[trigger] open.requires((n,)),
        ensures
            self.nodes@.len() == 0 ==> r@.len() == 0,
            self.nodes@.len() > 0 ==> exists|t: Seq<(usize, bool)>|
                {
                    &&& self.is_walk(t)
                    &&& self.chosen_by(t, open)
                    &&& r@ == self.skipped(t)
                },
            forall|k1: int, k2: int|
                0 <= k1 < k2 < r@.len() ==> self.rank@[#[trigger] r@[k1] as int] < self.rank@[#[trigger] r@[k2] as int],
    {
        let mut out: Vec<usize> = Vec::new();
        if self.nodes.len() == 0 {
            return out;
        }
        let mut node: usize = ROOT;
        let ghost mut t: Seq<(usize, bool)> = Seq::empty();
        loop
            invariant
                self.wf(),
                node < self.nodes@.len(),
                forall|n: &Node<Q, P>| #[trigger] open.requires((n,)),
                t.len() == 0 ==> node == ROOT,
                t.len() > 0 ==> t[0].0 == ROOT && self.continues(t.last()) && self.successor(t.last()) == node,
                forall|k: int| 0 <= k < t.len() ==> (#[trigger] t[k]).0 < self.nodes@.len(),
                forall|k: int| 0 <= k < t.len() - 1 ==> #[trigger] self.steps_to(t, k),
                self.chosen_by(t, open),
                out@ == self.skipped(t),
                forall|k1: int, k2: int|
                    0 <= k1 < k2 < out@.len() ==> self.rank@[#[trigger] out@[k1] as int] < self.rank@[#[trigger] out@[k2] as int],
                forall|k: int| 0 <= k < out@.len() ==> self.rank@[#[trigger] out@[k] as int] < self.rank@[node as int],
            decreases self.nodes@.len() - self.rank@[node as int],
        {
            let descend = self.nodes[node].children != 0 && open(&self.nodes[node]);
            let ghost t0 = t;
            proof {
                t = t.push((node, descend));
                assert(t.drop_last() =~= t0);
                assert forall|k: int| 0 <= k < t.len() - 1 implies #[trigger] self.steps_to(t, k) by {
                    if k < t0.len() - 1 {
                        assert(self.steps_to(t0, k));
                    }
                }
            }
            if !descend {
                out.push(node);
            }
            match self.advance(node, descend) {
                Some(x) => {
                    node = x;
                },
                None => {
                    proof {
                        assert(t.last() == (node, descend));
                        assert(self.is_walk(t));
                        assert(self.chosen_by(t, open));
                        assert(out@ == self.skipped(t));
                    }
                    return out;
                },
            }
        }
    }

    /// Bodies of the occupied leaves, other than `body_idx`, met by a walk
    /// that descends into every node whose region `overlaps` reports as
    /// touching the query box and skips every other subtree; a leaf counts
    /// when its own region touches the box.
    pub fn find_collisions<F>(&self, body_idx: u32, overlaps: F) -> (r: Vec<u32>)
        where
            F: Fn(&Q) -> bool,
        requires
            self.wf(),
            forall|q: &Q| #[trigger] overlaps.requires((q,)),
        ensures
            self.nodes@.len() == 0 ==> r@.len() == 0,
            self.nodes@.len() > 0 ==> exists|t: Seq<(usize, bool)>|
                {
                    &&& self.is_walk(t)
                    &&& self.overlapped_by(t, overlaps)
                    &&& r@ == self.hits(t, body_idx)
                },
            forall|k: int|
                0 <= k < r@.len() ==> #[trigger] r@[k] != body_idx && r@[k] != NO_BODY && self.holds(r@[k]),
    {
        let mut out: Vec<u32> = Vec::new();
        if self.nodes.len() == 0 {
            return out;
        }
        let mut node: usize = ROOT;
        let ghost mut t: Seq<(usize, bool)> = Seq::empty();
        loop
            invariant
                self.wf(),
                node < self.nodes@.len(),
                forall|q: &Q| #[trigger] overlaps.requires((q,)),
                t.len() == 0 ==> node == ROOT,
                t.len() > 0 ==> t[0].0 == ROOT && self.continues(t.last()) && self.successor(t.last()) == node,
                forall|k: int| 0 <= k < t.len() ==> (#[trigger] t[k]).0 < self.nodes@.len(),
                forall|k: int| 0 <= k < t.len() - 1 ==> #[trigger] self.steps_to(t, k),
                self.overlapped_by(t, overlaps),
                out@ == self.hits(t, body_idx),
                forall|k: int|
                    0 <= k < out@.len() ==> #[trigger] out@[k] != body_idx && out@[k] != NO_BODY && self.holds(out@[k]),
            decreases self.nodes@.len() - self.rank@[node as int],
        {
            let touches = overlaps(&self.nodes[node].quad);
            let ghost t0 = t;
            proof {
                t = t.push((node, touches));
                assert(t.drop_last() =~= t0);
                assert forall|k: int| 0 <= k < t.len() - 1 implies #[trigger] self.steps_to(t, k) by {
                    if k < t0.len() - 1 {
                        assert(self.steps_to(t0, k));
                    }
                }
            }
            let n = &self.nodes[node];
            if touches && n.children == 0 && n.point.is_some() && n.body_index != body_idx {
                out.push(n.body_index);
                assert(self.holds_at(node as int, n.body_index));
            }
            match self.advance(node, touches) {
                Some(x) => {
                    node = x;
                },
                None => {
                    proof {
                        assert(t.last() == (node, touches));
                        assert(self.is_walk(t));
                        assert(self.overlapped_by(t, overlaps));
                        assert(out@ == self.hits(t, body_idx));
                    }
                    return out;
                },
            }
        }
    }
}

/// Along any walk, ranks strictly increase: a walk never visits a node twice,
/// so no node of a traversal is counted twice.
pub proof fn lemma_walk_visits_once<Q, P>(tree: Quadtree<Q, P>, t: Seq<(usize, bool)>)
    requires
        tree.wf(),
        tree.is_walk(t),
    ensures
        forall|k1: int, k2: int| 0 <= k1 < k2 < t.len() ==> #[trigger] t[k1].0 != #[trigger] t[k2].0,
{
    assert forall|k1: int, k2: int| 0 <= k1 < k2 < t.len() implies tree.rank@[t[k1].0 as int]
        < tree.rank@[t[k2].0 as int] by {
        lemma_rank_grows(tree, t, k1, k2);
    }
    assert forall|k1: int, k2: int| 0 <= k1 < k2 < t.len() implies #[trigger] t[k1].0 != #[trigger] t[k2].0 by {
        lemma_rank_grows(tree, t, k1, k2);
    }
}

proof fn lemma_rank_grows<Q, P>(tree: Quadtree<Q, P>, t: Seq<(usize, bool)>, k1: int, k2: int)
    requires
        tree.wf(),
        tree.is_walk(t),
        0 <= k1 < k2 < t.len(),
    ensures
        tree.rank@[t[k1].0 as int] < tree.rank@[t[k2].0 as int],
    decreases k2 - k1,
{
    let j = k2 - 1;
    assert(tree.steps_to(t, j));
    let n = tree.nodes@[t[j].0 as int];
    assert(t[j].0 < tree.nodes@.len());
    if tree.descends(t[j]) {
        assert(n.children != 0);
    } else {
        assert(n.next != 0);
    }
    if k1 < j {
        lemma_rank_grows(tree, t, k1, j);
    }
}

/// A walk that descends into every internal node visits every node once, in
/// pre-order: it has one entry per node, and the entry at each node's rank is
/// that node. An exact traversal therefore reaches every leaf.
pub proof fn lemma_full_walk_visits_all<Q, P>(tree: Quadtree<Q, P>, t: Seq<(usize, bool)>)
    requires
        tree.wf(),
        tree.is_walk(t),
        forall|k: int|
            0 <= k < t.len() ==> (#[trigger] t[k]).1 || tree.nodes@[t[k].0 as int].children == 0,
    ensures
        t.len() == tree.nodes@.len(),
        forall|i: int| 0 <= i < tree.nodes@.len() ==> t[#[trigger] tree.rank@[i] as int].0 == i,
{
    reveal(Quadtree::preorder);
    let last = t.len() - 1;
    lemma_rank_is_position(tree, t, last);
    assert(t[last].0 < tree.nodes@.len());
    assert(tree.nodes@[t[last].0 as int].children == 0);
    assert forall|i: int| 0 <= i < tree.nodes@.len() implies t[#[trigger] tree.rank@[i] as int].0 == i by {
        let k = tree.rank@[i] as int;
        lemma_rank_is_position(tree, t, k);
        assert(t[k].0 < tree.nodes@.len());
    }
}

proof fn lemma_rank_is_position<Q, P>(tree: Quadtree<Q, P>, t: Seq<(usize, bool)>, k: int)
    requires
        tree.wf(),
        tree.is_walk(t),
        forall|k: int|
            0 <= k < t.len() ==> (#[trigger] t[k]).1 || tree.nodes@[t[k].0 as int].children == 0,
        0 <= k < t.len(),
    ensures
        tree.rank@[t[k].0 as int] == k,
    decreases k,
{
    reveal(Quadtree::preorder);
    if k > 0 {
        let j = k - 1;
        lemma_rank_is_position(tree, t, j);
        assert(tree.steps_to(t, j));
        assert(t[j].0 < tree.nodes@.len());
        let n = tree.nodes@[t[j].0 as int];
        if !tree.descends(t[j]) {
            assert(n.children == 0);
        }
    }
}

} // verus!

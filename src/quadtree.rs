use vstd::prelude::*;

use crate::geometry::{quadrant, quadrant_index};

verus! {

/// Arena index of the root node.
pub const ROOT: usize = 0;

/// Body index stored in a node that holds no body.
pub const NO_BODY: u32 = 0xFFFF_FFFF;

/// Largest number of nodes the arena may hold: every link is a `u32`.
pub const MAX_NODES: usize = 0xFFFF_FFFF;

/// One entry of the node arena.
///
/// `children` is the index of the first of four contiguous children, or 0 for
/// a leaf; `next` is the node that follows this node's subtree in a pre-order
/// walk, or 0 at the end of the walk. A leaf holds a point mass exactly when
/// it holds a body index.
#[derive(Copy)]
pub struct Node<Q, P> {
    pub children: u32,
    pub next: u32,
    pub body_index: u32,
    pub quad: Q,
    pub point: Option<P>,
}

impl<Q: Copy, P: Copy> Node<Q, P> {
    /// An empty leaf with the given skip link and region.
    pub fn new(next: u32, quad: Q) -> (r: Self)
        ensures
            r == (Node::<Q, P> { children: 0, next, body_index: NO_BODY, quad, point: None }),
    {
        Node { children: 0, next, body_index: NO_BODY, quad, point: None }
    }

    pub fn is_leaf(&self) -> (r: bool)
        ensures
            r == (self.children == 0),
    {
        self.children == 0
    }

    pub fn is_branch(&self) -> (r: bool)
        ensures
            r == (self.children != 0),
    {
        self.children != 0
    }

    pub fn is_empty(&self) -> (r: bool)
        ensures
            r == self.point.is_none(),
    {
        self.point.is_none()
    }
}

/// Where `insert` put a body.
pub enum Placement {
    /// The body now occupies this leaf alone.
    Placed(usize),
    /// The body sat exactly on the point of this leaf and its mass joined it.
    Merged(usize),
    /// The arena could not hold four more nodes; the body was not stored.
    Full,
}

/// Flat-arena quadtree.
///
/// `parents` lists the internal nodes in the order in which they were
/// subdivided. `rank` orders the nodes so that every step of a walk, to a
/// first child or along a skip link, reaches a higher rank; it exists only in
/// proofs, where it shows that every walk ends.
pub struct Quadtree<Q, P> {
    pub nodes: Vec<Node<Q, P>>,
    pub parents: Vec<usize>,
    pub rank: Ghost<Seq<nat>>,
}

impl<Q, P> Quadtree<Q, P> {
    /// Node `c` is one of the four children of node `p`.
    pub open spec fn child_of(self, c: int, p: int) -> bool {
        let f = self.nodes@[p].children as int;
        f != 0 && f <= c < f + 4
    }

    /// Arena links: the root ends the walk, children are four contiguous
    /// nodes placed after their parent and chained to the parent's successor,
    /// and a leaf holds a point exactly when it holds a body index.
    pub open spec fn links_ok(self) -> bool {
        let n = self.nodes@;
        &&& n.len() <= MAX_NODES
        &&& n.len() > 0 ==> n[ROOT as int].next == 0
        &&& forall|i: int| 0 <= i < n.len() ==> (#[trigger] n[i].next as int) < n.len()
        &&& forall|i: int|
            0 <= i < n.len() && (#[trigger] n[i].children) != 0 ==> {
                let c = n[i].children as int;
                &&& i < c
                &&& c + 3 < n.len()
                &&& n[c].next == c + 1
                &&& n[c + 1].next == c + 2
                &&& n[c + 2].next == c + 3
                &&& n[c + 3].next == n[i].next
            }
        &&& forall|i: int|
            0 <= i < n.len() && (#[trigger] n[i].children) == 0 ==> (n[i].point.is_some()
                <==> n[i].body_index != NO_BODY)
    }

    /// Every step of a walk, to the first child or to the skip link, moves to
    /// a node of greater pre-order rank.
    pub open spec fn ranked(self) -> bool {
        let n = self.nodes@;
        let r = self.rank@;
        &&& r.len() == n.len()
        &&& forall|i: int| 0 <= i < n.len() ==> #[trigger] r[i] < n.len()
        &&& forall|i: int|
            0 <= i < n.len() && (#[trigger] n[i].children) != 0 ==> r[i] < r[n[i].children as int]
        &&& forall|i: int|
            0 <= i < n.len() && (#[trigger] n[i].next) != 0 ==> r[i] < r[n[i].next as int]
    }

    /// Leaf `i` holds body `b` with point `p`.
    pub open spec fn holds_point(self, i: int, b: u32, p: P) -> bool {
        &&& self.holds_at(i, b)
        &&& self.nodes@[i].point == Some(p)
    }

    /// Some leaf holds body `b` with point `p`.
    pub open spec fn occupied(self, b: u32, p: P) -> bool {
        exists|i: int| #[trigger] self.holds_point(i, b, p)
    }

    /// Node `i` ends a descent of `p`.
    pub open spec fn sits<S>(self, i: int, p: P, side: S) -> bool
        where
            S: Fn(&Q, &P) -> (bool, bool),
    {
        exists|path: Seq<usize>| #[trigger] self.descent(path, p, side) && path.last() == i
    }

    /// Every occupied leaf ends a descent of its own point.
    pub open spec fn sited<S>(self, side: S) -> bool
        where
            S: Fn(&Q, &P) -> (bool, bool),
    {
        forall|i: int|
            0 <= i < self.nodes@.len() && (#[trigger] self.nodes@[i]).children == 0
                && self.nodes@[i].point.is_some() ==> self.sits(i, self.nodes@[i].point->0, side)
    }

    /// The nodes recorded in `parents` from entry `k0` on were split in that
    /// order, each one's four children appended after the first `len0`
    /// nodes, with the regions `split` gave for the parent's region.
    pub open spec fn split_from<D>(self, split: D, k0: int, len0: int) -> bool
        where
            D: Fn(&Q) -> (Q, Q, Q, Q),
    {
        &&& 0 <= k0 <= self.parents@.len()
        &&& self.nodes@.len() == len0 + 4 * (self.parents@.len() - k0)
        &&& forall|k: int|
            k0 <= k < self.parents@.len() ==> {
                let p = #[trigger] self.parents@[k] as int;
                let c = self.nodes@[p].children as int;
                &&& c == len0 + 4 * (k - k0)
                &&& split.ensures(
                    (&self.nodes@[p].quad,),
                    (
                        self.nodes@[c].quad,
                        self.nodes@[c + 1].quad,
                        self.nodes@[c + 2].quad,
                        self.nodes@[c + 3].quad,
                    ),
                )
            }
    }

    /// `rank` numbers the nodes in pre-order: ranks are distinct, the root
    /// comes first, a first child directly follows its parent, a leaf is
    /// directly followed by its skip link, and the leaf that ends the walk
    /// comes last.
    #[verifier::opaque]
    pub open spec fn preorder(self) -> bool {
        let n = self.nodes@;
        let r = self.rank@;
        &&& forall|i: int, j: int|
            0 <= i < n.len() && 0 <= j < n.len() && i != j ==> #[trigger] r[i] != #[trigger] r[j]
        &&& n.len() > 0 ==> r[ROOT as int] == 0
        &&& forall|i: int|
            0 <= i < n.len() && (#[trigger] n[i].children) != 0 ==> r[n[i].children as int] == r[i] + 1
        &&& forall|i: int|
            0 <= i < n.len() && (#[trigger] n[i].children) == 0 ==> if n[i].next != 0 {
                r[n[i].next as int] == r[i] + 1
            } else {
                r[i] == n.len() - 1
            }
    }

    /// `parents` holds each internal node once, and a node is recorded
    /// before any of its children.
    pub open spec fn parents_ok(self) -> bool {
        let n = self.nodes@;
        let ps = self.parents@;
        &&& forall|k: int|
            0 <= k < ps.len() ==> #[trigger] ps[k] < n.len() && n[ps[k] as int].children != 0
        &&& forall|i: int|
            0 <= i < n.len() && (#[trigger] n[i].children) != 0 ==> exists|k: int|
                0 <= k < ps.len() && #[trigger] ps[k] == i
        &&& forall|k1: int, k2: int|
            0 <= k1 < ps.len() && 0 <= k2 < ps.len() && k1 != k2 ==> #[trigger] ps[k1]
                != #[trigger] ps[k2]
        &&& forall|k1: int, k2: int|
            0 <= k1 < ps.len() && 0 <= k2 < ps.len() && self.child_of(
                #[trigger] ps[k2] as int,
                #[trigger] ps[k1] as int,
            ) ==> k1 < k2
    }

    /// Leaf `i` holds a point mass for body `b`.
    pub open spec fn holds_at(self, i: int, b: u32) -> bool {
        &&& 0 <= i < self.nodes@.len()
        &&& self.nodes@[i].children == 0
        &&& self.nodes@[i].point.is_some()
        &&& self.nodes@[i].body_index == b
    }

    /// Some leaf holds a point mass for body `b`.
    pub open spec fn holds(self, b: u32) -> bool {
        exists|i: int| #[trigger] self.holds_at(i, b)
    }

    /// At entry `k` of `path`, an internal node, the path moves to the child
    /// of the quadrant that `side` reported for `point`.
    pub open spec fn descends_into<S>(self, path: Seq<usize>, k: int, point: P, side: S) -> bool
        where
            S: Fn(&Q, &P) -> (bool, bool),
    {
        let n = self.nodes@[path[k] as int];
        &&& n.children != 0
        &&& exists|s: (bool, bool)|
            side.ensures((&n.quad, &point), s) && path[k + 1] == n.children + quadrant_index(s.0, s.1)
    }

    /// `path` leads from the root to a leaf, taking at each internal node the
    /// quadrant that `side` reports for `point`.
    pub open spec fn descent<S>(self, path: Seq<usize>, point: P, side: S) -> bool
        where
            S: Fn(&Q, &P) -> (bool, bool),
    {
        &&& path.len() > 0
        &&& path[0] == ROOT
        &&& forall|k: int| 0 <= k < path.len() ==> (#[trigger] path[k]) < self.nodes@.len()
        &&& forall|k: int| 0 <= k < path.len() - 1 ==> #[trigger] self.descends_into(path, k, point, side)
        &&& self.nodes@[path.last() as int].children == 0
    }

    pub open spec fn wf(self) -> bool {
        &&& self.links_ok()
        &&& self.ranked()
        &&& self.preorder()
        &&& self.parents_ok()
    }
}

impl<Q: Copy, P: Copy> Quadtree<Q, P> {
    /// A tree with no nodes; `clear` gives it a root.
    pub fn new() -> (r: Self)
        ensures
            r.wf(),
            r.nodes@.len() == 0,
            r.parents@.len() == 0,
    {
        let r = Quadtree { nodes: Vec::new(), parents: Vec::new(), rank: Ghost(Seq::empty()) };
        assert(r.preorder()) by {
            reveal(Quadtree::preorder);
        }
        r
    }

    /// Drops all nodes and leaves a single empty root covering `quad`.
    pub fn clear(&mut self, quad: Q)
        ensures
            final(self).wf(),
            final(self).nodes@ == seq![Node::<Q, P> { children: 0, next: 0, body_index: NO_BODY, quad, point: None }],
            final(self).parents@.len() == 0,
    {
        self.nodes.clear();
        self.parents.clear();
        self.nodes.push(Node::new(0, quad));
        let ghost r0: Seq<nat> = seq![0nat];
        self.rank = Ghost(r0);
        assert(self.nodes@ =~= seq![Node::<Q, P> { children: 0, next: 0, body_index: NO_BODY, quad, point: None }]);
        assert(self.preorder()) by {
            reveal(Quadtree::preorder);
        }
    }

    /// Turns leaf `node` into an internal node with four fresh empty children
    /// covering `q0` to `q3`, records it in `parents`, and returns the index
    /// of its first child.
    pub(crate) fn subdivide(&mut self, node: usize, q0: Q, q1: Q, q2: Q, q3: Q) -> (c: usize)
        requires
            old(self).wf(),
            node < old(self).nodes@.len(),
            old(self).nodes@[node as int].children == 0,
            old(self).nodes@.len() + 4 <= MAX_NODES,
        ensures
            final(self).wf(),
            c == old(self).nodes@.len(),
            final(self).nodes@.len() == c + 4,
            final(self).parents@ == old(self).parents@.push(node),
            forall|i: int|
                0 <= i < c && i != node ==> #[trigger] final(self).nodes@[i] == old(self).nodes@[i],
            final(self).nodes@[node as int] == (Node::<Q, P> {
                children: c as u32,
                body_index: NO_BODY,
                point: None,
                ..old(self).nodes@[node as int]
            }),
            final(self).nodes@[c as int] == Node::<Q, P>::new_spec((c + 1) as u32, q0),
            final(self).nodes@[c + 1] == Node::<Q, P>::new_spec((c + 2) as u32, q1),
            final(self).nodes@[c + 2] == Node::<Q, P>::new_spec((c + 3) as u32, q2),
            final(self).nodes@[c + 3] == Node::<Q, P>::new_spec(old(self).nodes@[node as int].next, q3),
    {
        let ghost old_tree = *self;
        let ghost rn = self.rank@[node as int];
        let c = self.nodes.len();
        let mut parent = self.nodes[node];
        let next = parent.next;
        parent.children = c as u32;
        parent.body_index = NO_BODY;
        parent.point = None;
        self.nodes.set(node, parent);
        self.nodes.push(Node::new((c + 1) as u32, q0));
        self.nodes.push(Node::new((c + 2) as u32, q1));
        self.nodes.push(Node::new((c + 3) as u32, q2));
        self.nodes.push(Node::new(next, q3));
        self.parents.push(node);
        let ghost r = old_tree.rank@;
        let ghost r2 = Seq::new(
            (c + 4) as nat,
            |j: int|
                if j < c {
                    if r[j] > rn {
                        r[j] + 4
                    } else {
                        r[j]
                    }
                } else {
                    (rn + (j - c) + 1) as nat
                },
        );
        self.rank = Ghost(r2);
        proof {
            let n0 = old_tree.nodes@;
            let n = self.nodes@;
            let r2 = self.rank@;
            let ci = c as int;
            assert(n[ci] == Node::<Q, P>::new_spec((c + 1) as u32, q0));
            assert(n[ci + 1] == Node::<Q, P>::new_spec((c + 2) as u32, q1));
            assert(n[ci + 2] == Node::<Q, P>::new_spec((c + 3) as u32, q2));
            assert(n[ci + 3] == Node::<Q, P>::new_spec(next, q3));
            assert(forall|i: int| 0 <= i < ci && i != node ==> n[i] == n0[i]);
            // links
            assert forall|i: int| 0 <= i < n.len() implies (#[trigger] n[i].next as int) < n.len() by {
                if i < ci && i != node {
                    assert(n0[i].next < n0.len());
                }
                if i == node {
                    assert(n0[node as int].next < n0.len());
                }
            }
            assert forall|i: int| 0 <= i < n.len() && (#[trigger] n[i].children) != 0 implies r2[i]
                < r2[n[i].children as int] by {
                if i != node {
                    assert(n0[i].children != 0);
                    assert(r[i] < r[n0[i].children as int]);
                }
            }
            assert forall|i: int| 0 <= i < n.len() && (#[trigger] n[i].next) != 0 implies r2[i]
                < r2[n[i].next as int] by {
                if i < ci {
                    assert(n0[i].next != 0);
                    assert(r[i] < r[n0[i].next as int]);
                } else if i == ci + 3 {
                    assert(n0[node as int].next != 0);
                    assert(r[node as int] < r[n0[node as int].next as int]);
                }
            }
            assert forall|i: int| 0 <= i < n.len() implies #[trigger] r2[i] < n.len() by {
                if i < ci {
                    assert(r[i] < n0.len());
                }
                assert(r[node as int] < n0.len());
            }
            assert forall|i: int| 0 <= i < n.len() && (#[trigger] n[i].children) != 0 implies {
                let cc = n[i].children as int;
                &&& i < cc
                &&& cc + 3 < n.len()
                &&& n[cc].next == cc + 1
                &&& n[cc + 1].next == cc + 2
                &&& n[cc + 2].next == cc + 3
                &&& n[cc + 3].next == n[i].next
            } by {
                if i != node {
                    assert(n0[i].children != 0);
                    let cc = n0[i].children as int;
                    assert(forall|j: int| 0 <= j < ci ==> n[j].next == n0[j].next);
                }
            }
            lemma_subdivide_preorder(old_tree, *self, node as int);
            // parents
            let ps = self.parents@;
            let ps0 = old_tree.parents@;
            assert forall|i: int| 0 <= i < n.len() && (#[trigger] n[i].children) != 0 implies exists|k: int|
                0 <= k < ps.len() && #[trigger] ps[k] == i by {
                if i == node {
                    assert(ps[ps.len() - 1] == i);
                } else {
                    assert(n0[i].children != 0);
                    let k = choose|k: int| 0 <= k < ps0.len() && #[trigger] ps0[k] == i;
                    assert(ps[k] == i);
                }
            }
            assert forall|k1: int, k2: int|
                0 <= k1 < ps.len() && 0 <= k2 < ps.len() && k1 != k2 implies #[trigger] ps[k1]
                    != #[trigger] ps[k2] by {
                if k1 < ps0.len() {
                    assert(n0[ps0[k1] as int].children != 0);
                }
                if k2 < ps0.len() {
                    assert(n0[ps0[k2] as int].children != 0);
                }
            }
            assert forall|k1: int, k2: int|
                0 <= k1 < ps.len() && 0 <= k2 < ps.len() && self.child_of(
                    #[trigger] ps[k2] as int,
                    #[trigger] ps[k1] as int,
                ) implies k1 < k2 by {
                if k1 < ps0.len() && k2 < ps0.len() {
                    assert(old_tree.child_of(ps0[k2] as int, ps0[k1] as int));
                } else if k1 == ps0.len() {
                    assert(ps0[k2] < n0.len());
                }
            }
            assert forall|k: int| 0 <= k < ps.len() implies #[trigger] ps[k] < n.len() && n[ps[k] as int].children != 0 by {
                if k < ps0.len() {
                    assert(n0[ps0[k] as int].children != 0);
                }
            }
        }
        c
    }
}

impl<Q: Copy, P: Copy> Quadtree<Q, P> {
    /// Stores `point` and `body_index` in node `i`, which must keep a leaf's
    /// pairing of point and body index.
    pub(crate) fn set_payload(&mut self, i: usize, point: Option<P>, body_index: u32)
        requires
            old(self).wf(),
            i < old(self).nodes@.len(),
            old(self).nodes@[i as int].children != 0 || (point.is_some() <==> body_index != NO_BODY),
        ensures
            final(self).wf(),
            final(self).parents@ == old(self).parents@,
            final(self).nodes@ == old(self).nodes@.update(
                i as int,
                Node::<Q, P> { point, body_index, ..old(self).nodes@[i as int] },
            ),
    {
        let ghost old_tree = *self;
        let mut n = self.nodes[i];
        n.point = point;
        n.body_index = body_index;
        self.nodes.set(i, n);
        proof {
            let n0 = old_tree.nodes@;
            let n1 = self.nodes@;
            assert forall|j: int| 0 <= j < n1.len() implies #[trigger] n1[j].children == n0[j].children
                && n1[j].next == n0[j].next by {}
            assert forall|k1: int, k2: int|
                0 <= k1 < self.parents@.len() && 0 <= k2 < self.parents@.len() && self.child_of(
                    #[trigger] self.parents@[k2] as int,
                    #[trigger] self.parents@[k1] as int,
                ) implies k1 < k2 by {
                assert(old_tree.child_of(self.parents@[k2] as int, self.parents@[k1] as int));
            }
            lemma_payload_keeps_preorder(old_tree, *self);
        }
    }

    /// Walks from the root to the leaf whose region contains `point`,
    /// choosing at each internal node the quadrant that `side` reports.
    pub(crate) fn descend<S>(&self, point: &P, side: &S) -> (leaf: usize)
        where
            S: Fn(&Q, &P) -> (bool, bool),
        requires
            self.wf(),
            self.nodes@.len() > 0,
            forall|q: &Q, p: &P| #[trigger] side.requires((q, p)),
        ensures
            leaf < self.nodes@.len(),
            exists|path: Seq<usize>| #[trigger] self.descent(path, *point, *side) && path.last() == leaf,
    {
        let mut node: usize = ROOT;
        let ghost mut path: Seq<usize> = seq![ROOT];
        while self.nodes[node].children != 0
            invariant
                self.wf(),
                node < self.nodes@.len(),
                forall|q: &Q, p: &P| #[trigger] side.requires((q, p)),
                path.len() > 0,
                path[0] == ROOT,
                path.last() == node,
                forall|k: int| 0 <= k < path.len() ==> (#[trigger] path[k]) < self.nodes@.len(),
                forall|k: int| 0 <= k < path.len() - 1 ==> #[trigger] self.descends_into(path, k, *point, *side),
            decreases self.nodes@.len() - self.rank@[node as int],
        {
            let quad = self.nodes[node].quad;
            let (right, above) = side(&quad, point);
            let first = self.nodes[node].children as usize;
            let ghost p0 = path;
            node = first + quadrant(right, above);
            proof {
                path = path.push(node);
                assert(self.nodes@[first as int].next == first + 1);
                assert(self.nodes@[first + 1].next == first + 2);
                assert(self.nodes@[first + 2].next == first + 3);
                assert forall|k: int| 0 <= k < path.len() - 1 implies #[trigger] self.descends_into(path, k, *point, *side) by {
                    if k < p0.len() - 1 {
                        assert(self.descends_into(p0, k, *point, *side));
                        assert(path[k + 1] == p0[k + 1]);
                    } else {
                        assert(side.ensures((&quad, point), (right, above)));
                    }
                }
            }
        }
        assert(self.descent(path, *point, *side));
        node
    }
}

/// Subdividing leaf `node` inserts its four children right after it in
/// pre-order, moving every later node four places on.
proof fn lemma_subdivide_preorder<Q, P>(before: Quadtree<Q, P>, after: Quadtree<Q, P>, node: int)
    requires
        before.links_ok(),
        before.preorder(),
        before.ranked(),
        0 <= node < before.nodes@.len(),
        before.nodes@[node].children == 0,
        after.nodes@.len() == before.nodes@.len() + 4,
        forall|i: int|
            0 <= i < before.nodes@.len() && i != node ==> #[trigger] after.nodes@[i] == before.nodes@[i],
        after.nodes@[node].children == before.nodes@.len(),
        after.nodes@[node].next == before.nodes@[node].next,
        ({
            let c = before.nodes@.len() as int;
            let n = after.nodes@;
            &&& n[c].children == 0 && n[c].next == c + 1
            &&& n[c + 1].children == 0 && n[c + 1].next == c + 2
            &&& n[c + 2].children == 0 && n[c + 2].next == c + 3
            &&& n[c + 3].children == 0 && n[c + 3].next == before.nodes@[node].next
        }),
        after.rank@ == Seq::new(
            (before.nodes@.len() + 4) as nat,
            |j: int|
                if j < before.nodes@.len() {
                    if before.rank@[j] > before.rank@[node] {
                        before.rank@[j] + 4
                    } else {
                        before.rank@[j]
                    }
                } else {
                    (before.rank@[node] + (j - before.nodes@.len()) + 1) as nat
                },
        ),
    ensures
        after.preorder(),
{
    reveal(Quadtree::preorder);
    let n0 = before.nodes@;
    let n = after.nodes@;
    let r = before.rank@;
    let r2 = after.rank@;
    let rn = r[node];
    let ci = n0.len() as int;
    assert forall|i: int, j: int|
        0 <= i < n.len() && 0 <= j < n.len() && i != j implies #[trigger] r2[i] != #[trigger] r2[j] by {
        if i < ci {
            assert(r[i] < n0.len());
        }
        if j < ci {
            assert(r[j] < n0.len());
        }
    }
    assert forall|i: int| 0 <= i < n.len() && (#[trigger] n[i].children) != 0 implies r2[n[i].children as int]
        == r2[i] + 1 by {
        if i != node {
            assert(n0[i].children != 0);
            assert(r[n0[i].children as int] == r[i] + 1);
            assert(r[i] != rn);
        }
    }
    assert forall|i: int| 0 <= i < n.len() && (#[trigger] n[i].children) == 0 implies if n[i].next != 0 {
        r2[n[i].next as int] == r2[i] + 1
    } else {
        r2[i] == n.len() - 1
    } by {
        if i < ci {
            assert(n0[i].children == 0);
            assert(i != node);
            assert(r[i] != rn);
            assert(r[i] < n0.len());
        } else if i == ci + 3 {
            assert(r[node] < n0.len());
        }
    }
    if n0.len() > 0 {
        assert(r[ROOT as int] == 0);
    }
}

/// A descent survives any change that keeps, on every existing node, its
/// children and its region.
pub(crate) proof fn lemma_descent_kept<Q, P, S>(
    before: Quadtree<Q, P>,
    after: Quadtree<Q, P>,
    path: Seq<usize>,
    point: P,
    side: S,
)
    where
        S: Fn(&Q, &P) -> (bool, bool),
    requires
        before.descent(path, point, side),
        after.nodes@.len() >= before.nodes@.len(),
        forall|j: int|
            0 <= j < before.nodes@.len() ==> #[trigger] after.nodes@[j].children == before.nodes@[j].children
                && after.nodes@[j].quad == before.nodes@[j].quad,
    ensures
        after.descent(path, point, side),
{
    assert forall|k: int| 0 <= k < path.len() - 1 implies #[trigger] after.descends_into(path, k, point, side) by {
        assert(before.descends_into(path, k, point, side));
        assert(path[k] < before.nodes@.len());
        let n = before.nodes@[path[k] as int];
        let s = choose|s: (bool, bool)|
            side.ensures((&n.quad, &point), s) && path[k + 1] == n.children + quadrant_index(s.0, s.1);
        assert(after.nodes@[path[k] as int].children == n.children);
    }
    assert(path.last() < before.nodes@.len());
}

/// A descent survives any change that keeps, on the nodes it passes, their
/// children and their regions.
pub(crate) proof fn lemma_descent_on_path<Q, P, S>(
    before: Quadtree<Q, P>,
    after: Quadtree<Q, P>,
    path: Seq<usize>,
    point: P,
    side: S,
)
    where
        S: Fn(&Q, &P) -> (bool, bool),
    requires
        before.descent(path, point, side),
        forall|k: int|
            0 <= k < path.len() ==> (#[trigger] path[k]) < after.nodes@.len()
                && after.nodes@[path[k] as int].children == before.nodes@[path[k] as int].children
                && after.nodes@[path[k] as int].quad == before.nodes@[path[k] as int].quad,
    ensures
        after.descent(path, point, side),
{
    assert forall|k: int| 0 <= k < path.len() - 1 implies #[trigger] after.descends_into(path, k, point, side) by {
        assert(before.descends_into(path, k, point, side));
        let n = before.nodes@[path[k] as int];
        let s = choose|s: (bool, bool)|
            side.ensures((&n.quad, &point), s) && path[k + 1] == n.children + quadrant_index(s.0, s.1);
        assert(after.nodes@[path[k] as int].children == n.children);
        assert(after.nodes@[path[k] as int].quad == n.quad);
    }
    assert(after.nodes@[path.last() as int].children == before.nodes@[path.last() as int].children);
}

/// Changing only points and body indices keeps the pre-order numbering.
proof fn lemma_payload_keeps_preorder<Q, P>(before: Quadtree<Q, P>, after: Quadtree<Q, P>)
    requires
        before.preorder(),
        after.nodes@.len() == before.nodes@.len(),
        after.rank@ == before.rank@,
        forall|j: int|
            0 <= j < after.nodes@.len() ==> #[trigger] after.nodes@[j].children == before.nodes@[j].children
                && after.nodes@[j].next == before.nodes@[j].next,
    ensures
        after.preorder(),
{
    reveal(Quadtree::preorder);
    let n0 = before.nodes@;
    let n1 = after.nodes@;
    assert forall|j: int| 0 <= j < n1.len() && (#[trigger] n1[j].children) == 0 implies if n1[j].next != 0 {
        after.rank@[n1[j].next as int] == after.rank@[j] + 1
    } else {
        after.rank@[j] == n1.len() - 1
    } by {
        assert(n0[j].children == 0);
    }
    assert forall|j: int| 0 <= j < n1.len() && (#[trigger] n1[j].children) != 0 implies after.rank@[n1[j].children as int]
        == after.rank@[j] + 1 by {
        assert(n0[j].children != 0);
    }
}

impl<Q: Copy, P: Copy> Clone for Node<Q, P> {
    fn clone(&self) -> (r: Self)
        ensures
            r == *self,
    {
        *self
    }
}

impl<Q, P> Node<Q, P> {
    pub open spec fn new_spec(next: u32, quad: Q) -> Self {
        Node { children: 0, next, body_index: NO_BODY, quad, point: None }
    }
}

} // verus!

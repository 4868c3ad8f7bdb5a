use vstd::prelude::*;

use crate::geometry::{quadrant, quadrant_index};
use crate::quadtree::{lemma_descent_kept, lemma_descent_on_path, Node, Placement, Quadtree, MAX_NODES, NO_BODY, ROOT};

verus! {

impl<Q, P> Quadtree<Q, P> {
    /// What `insert` does at `leaf`, the end of the point's descent, given
    /// its result `r` and the arena's new length: an empty leaf takes the
    /// body; an occupied one merges it where `same` accepted the resident,
    /// and is split otherwise, which adds nodes or finds the arena full.
    pub open spec fn insert_outcome<E>(self, leaf: usize, point: P, same: E, r: Placement, new_len: nat) -> bool
        where
            E: Fn(&P, &P) -> bool,
    {
        let n = self.nodes@[leaf as int];
        match r {
            Placement::Placed(i) => {
                ||| n.point.is_none() && i == leaf && new_len == self.nodes@.len()
                ||| n.point.is_some() && same.ensures((&n.point->0, &point), false) && new_len > self.nodes@.len()
            },
            Placement::Merged(i) => i == leaf && n.point.is_some() && same.ensures((&n.point->0, &point), true),
            Placement::Full => n.point.is_some() && same.ensures((&n.point->0, &point), false),
        }
    }
}

impl<Q: Copy, P: Copy> Quadtree<Q, P> {
    /// Inserts the point mass `point` of body `body_index`.
    ///
    /// The walk descends to the leaf whose region contains the point. An
    /// empty leaf takes the body. A leaf whose point is `same` as the new one
    /// absorbs it through `merge` and keeps its body index. Otherwise the leaf
    /// is subdivided, region by region through `split`, until the resident and
    /// the new point fall in different quadrants, and each goes to its own
    /// child. Every split is recorded at the end of `parents`, appends four
    /// nodes with the regions `split` gave, and the occupants change by
    /// exactly the new body, or by one merge. A tree whose occupied leaves
    /// end the descents of their points keeps that property (for a merge,
    /// where merging keeps sides).
    pub fn insert<S, E, M, D>(
        &mut self,
        point: P,
        body_index: u32,
        side: &S,
        same: &E,
        merge: &M,
        split: &D,
    ) -> (r: Placement)
        where
            S: Fn(&Q, &P) -> (bool, bool),
            E: Fn(&P, &P) -> bool,
            M: Fn(&P, &P) -> P,
            D: Fn(&Q) -> (Q, Q, Q, Q),
        requires
            old(self).wf(),
            old(self).nodes@.len() > 0,
            body_index != NO_BODY,
            forall|q: &Q, p: &P| #[trigger] side.requires((q, p)),
            forall|a: &P, b: &P| #[trigger] same.requires((a, b)),
            forall|a: &P, b: &P| #[trigger] merge.requires((a, b)),
            forall|q: &Q| #[trigger] split.requires((q,)),
        ensures
            final(self).wf(),
            final(self).nodes@.len() >= old(self).nodes@.len(),
            forall|b: u32| old(self).holds(b) ==> #[trigger] final(self).holds(b),
            forall|i: int|
                0 <= i < old(self).nodes@.len() ==> #[trigger] final(self).nodes@[i].quad == old(self).nodes@[i].quad,
            final(self).parents@.len() >= old(self).parents@.len(),
            forall|k: int| 0 <= k < old(self).parents@.len() ==> #[trigger] final(self).parents@[k] == old(self).parents@[k],
            final(self).split_from(*split, old(self).parents@.len() as int, old(self).nodes@.len() as int),
            old(self).sited(*side) && (r is Merged ==> merge_keeps_sides::<Q, P, M, S>(*merge, *side))
                ==> final(self).sited(*side),
            forall|b: u32| #[trigger] final(self).holds(b) <==> old(self).holds(b) || (r is Placed && b == body_index),
            exists|path: Seq<usize>|
                #[trigger] old(self).descent(path, point, *side) && old(self).insert_outcome(
                    path.last(),
                    point,
                    *same,
                    r,
                    final(self).nodes@.len(),
                ),
            match r {
                Placement::Placed(i) => {
                    &&& final(self).holds_at(i as int, body_index)
                    &&& final(self).nodes@[i as int].point == Some(point)
                    &&& exists|path: Seq<usize>| #[trigger] final(self).descent(path, point, *side) && path.last() == i
                    &&& forall|b: u32, p: P| #[trigger] final(self).occupied(b, p) <==> old(self).occupied(b, p)
                        || (b == body_index && p == point)
                },
                Placement::Merged(i) => {
                    &&& exists|path: Seq<usize>| #[trigger] final(self).descent(path, point, *side) && path.last() == i
                    &&& final(self).nodes@.len() == old(self).nodes@.len()
                    &&& final(self).parents@ == old(self).parents@
                    &&& old(self).holds_at(i as int, old(self).nodes@[i as int].body_index)
                    &&& same.ensures(
                        (&old(self).nodes@[i as int].point->0, &point),
                        true,
                    )
                    &&& final(self).nodes@[i as int].point.is_some()
                    &&& merge.ensures(
                        (&old(self).nodes@[i as int].point->0, &point),
                        final(self).nodes@[i as int].point->0,
                    )
                    &&& final(self).nodes@ == old(self).nodes@.update(
                        i as int,
                        Node::<Q, P> { point: final(self).nodes@[i as int].point, ..old(self).nodes@[i as int] },
                    )
                },
                Placement::Full => {
                    &&& final(self).nodes@.len() + 4 > MAX_NODES
                    &&& forall|b: u32, p: P| #[trigger] final(self).occupied(b, p) <==> old(self).occupied(b, p)
                },
            },
    {
        let ghost old_tree = *self;
        let ghost k0 = old_tree.parents@.len() as int;
        let ghost len0 = old_tree.nodes@.len() as int;
        assert(old_tree.split_from(*split, k0, len0));
        let node = self.descend(&point, side);
        let ghost path = choose|path: Seq<usize>| #[trigger] old_tree.descent(path, point, *side) && path.last() == node;
        let resident = match self.nodes[node].point {
            None => {
                self.set_payload(node, Some(point), body_index);
                proof {
                    self.lemma_keeps_held(old_tree, node as int);
                    assert(old_tree.insert_outcome(path.last(), point, *same, Placement::Placed(node), self.nodes@.len()));
                    lemma_descent_kept(old_tree, *self, path, point, *side);
                    assert(self.sits(node as int, point, *side));
                    lemma_payload_step(old_tree, *self, node as int, *side, *split, k0, len0);
                    assert forall|b: u32, p: P| #[trigger] self.occupied(b, p) <==> old_tree.occupied(b, p)
                        || (b == body_index && p == point) by {
                        if b == body_index && p == point {
                            assert(self.holds_point(node as int, b, p));
                        }
                    }
                    lemma_holds_of_occupied(old_tree, *self, body_index, point, true);
                }
                return Placement::Placed(node);
            },
            Some(p) => p,
        };
        if same(&resident, &point) {
            let merged = merge(&resident, &point);
            let held_by = self.nodes[node].body_index;
            self.set_payload(node, Some(merged), held_by);
            proof {
                assert(self.nodes@ =~= old_tree.nodes@.update(
                    node as int,
                    Node::<Q, P> { point: self.nodes@[node as int].point, ..old_tree.nodes@[node as int] },
                ));
                self.lemma_keeps_held(old_tree, node as int);
                assert(old_tree.insert_outcome(path.last(), point, *same, Placement::Merged(node), self.nodes@.len()));
                lemma_descent_kept(old_tree, *self, path, point, *side);
                if old_tree.sited(*side) && merge_keeps_sides::<Q, P, M, S>(*merge, *side) {
                    let rp = choose|rp: Seq<usize>| #[trigger] old_tree.descent(rp, resident, *side) && rp.last() == node;
                    lemma_merge_descent(old_tree, rp, resident, point, merged, *side, *merge);
                    lemma_descent_kept(old_tree, *self, rp, merged, *side);
                    assert(self.sits(node as int, merged, *side));
                }
                lemma_payload_step(old_tree, *self, node as int, *side, *split, k0, len0);
                assert forall|b: u32| #[trigger] self.holds(b) <==> old_tree.holds(b) by {
                    if self.holds(b) {
                        let j = choose|j: int| self.holds_at(j, b);
                        assert(old_tree.holds_at(j, b));
                    }
                    if old_tree.holds(b) {
                        let j = choose|j: int| old_tree.holds_at(j, b);
                        assert(self.holds_at(j, b));
                    }
                }
            }
            return Placement::Merged(node);
        }
        let resident_index = self.nodes[node].body_index;
        let ghost rpath = if old_tree.sited(*side) {
            choose|rp: Seq<usize>| #[trigger] old_tree.descent(rp, resident, *side) && rp.last() == node
        } else {
            path
        };
        proof {
            if old_tree.sited(*side) {
                assert(old_tree.nodes@[node as int].children == 0);
                assert(old_tree.sits(node as int, resident, *side));
            }
        }
        let r = self.separate(node, resident, resident_index, point, body_index, side, split, Ghost(path), Ghost(rpath));
        proof {
            assert(old_tree.insert_outcome(path.last(), point, *same, r, self.nodes@.len()));
            lemma_holds_of_occupied(old_tree, *self, body_index, point, r is Placed);
        }
        r
    }

    /// Splits the occupied leaf `node` until its resident and `point` lie in
    /// different quadrants, then gives each its own child.
    #[verifier::spinoff_prover]
    #[verifier::rlimit(100)]
    fn separate<S, D>(
        &mut self,
        node: usize,
        resident: P,
        resident_index: u32,
        point: P,
        body_index: u32,
        side: &S,
        split: &D,
        Ghost(path): Ghost<Seq<usize>>,
        Ghost(rpath): Ghost<Seq<usize>>,
    ) -> (r: Placement)
        where
            S: Fn(&Q, &P) -> (bool, bool),
            D: Fn(&Q) -> (Q, Q, Q, Q),
        requires
            old(self).wf(),
            old(self).descent(path, point, *side),
            path.last() == node,
            old(self).sited(*side) ==> old(self).descent(rpath, resident, *side) && rpath.last() == node,
            node < old(self).nodes@.len(),
            old(self).holds_at(node as int, resident_index),
            old(self).nodes@[node as int].point == Some(resident),
            body_index != NO_BODY,
            forall|q: &Q, p: &P| #[trigger] side.requires((q, p)),
            forall|q: &Q| #[trigger] split.requires((q,)),
        ensures
            final(self).wf(),
            final(self).nodes@.len() >= old(self).nodes@.len(),
            forall|b: u32| old(self).holds(b) ==> #[trigger] final(self).holds(b),
            forall|i: int|
                0 <= i < old(self).nodes@.len() ==> #[trigger] final(self).nodes@[i].quad == old(self).nodes@[i].quad,
            final(self).parents@.len() >= old(self).parents@.len(),
            forall|k: int| 0 <= k < old(self).parents@.len() ==> #[trigger] final(self).parents@[k] == old(self).parents@[k],
            final(self).split_from(*split, old(self).parents@.len() as int, old(self).nodes@.len() as int),
            old(self).sited(*side) ==> final(self).sited(*side),
            match r {
                Placement::Placed(i) => {
                    &&& final(self).holds_at(i as int, body_index)
                    &&& final(self).nodes@[i as int].point == Some(point)
                    &&& final(self).nodes@.len() > old(self).nodes@.len()
                    &&& exists|path: Seq<usize>| #[trigger] final(self).descent(path, point, *side) && path.last() == i
                    &&& forall|b: u32, p: P| #[trigger] final(self).occupied(b, p) <==> old(self).occupied(b, p)
                        || (b == body_index && p == point)
                },
                Placement::Merged(_) => false,
                Placement::Full => {
                    &&& final(self).nodes@.len() + 4 > MAX_NODES
                    &&& forall|b: u32, p: P| #[trigger] final(self).occupied(b, p) <==> old(self).occupied(b, p)
                },
            },
    {
        let ghost old_tree = *self;
        let ghost k0 = old_tree.parents@.len() as int;
        let ghost len0 = old_tree.nodes@.len() as int;
        let ghost mut path = path;
        let ghost mut rpath = rpath;
        let mut node = node;
        self.set_payload(node, None, NO_BODY);
        proof {
            assert(old_tree.holds_point(node as int, resident_index, resident));
            assert(old_tree.split_from(*split, k0, len0));
            lemma_payload_step(old_tree, *self, node as int, *side, *split, k0, len0);
            lemma_descent_kept(old_tree, *self, path, point, *side);
            if old_tree.sited(*side) {
                lemma_descent_kept(old_tree, *self, rpath, resident, *side);
            }
            assert forall|b: u32| old_tree.holds(b) implies #[trigger] self.holds(b) || b == resident_index by {
                let j = choose|j: int| old_tree.holds_at(j, b);
                if j != node {
                    assert(self.holds_at(j, b));
                }
            }
        }
        loop
            invariant
                self.wf(),
                node < self.nodes@.len(),
                self.nodes@[node as int].children == 0,
                self.nodes@[node as int].point.is_none(),
                self.nodes@.len() >= old_tree.nodes@.len(),
                old_tree == *old(self),
                k0 == old_tree.parents@.len(),
                len0 == old_tree.nodes@.len(),
                forall|i: int|
                    0 <= i < old_tree.nodes@.len() ==> #[trigger] self.nodes@[i].quad == old_tree.nodes@[i].quad,
                resident_index != NO_BODY,
                body_index != NO_BODY,
                forall|b: u32| old_tree.holds(b) ==> #[trigger] self.holds(b) || b == resident_index,
                forall|b: u32, p: P| #[trigger] self.occupied(b, p) ==> old_tree.occupied(b, p),
                forall|b: u32, p: P| #[trigger] old_tree.occupied(b, p) ==> self.occupied(b, p)
                    || (b == resident_index && p == resident),
                old_tree.occupied(resident_index, resident),
                self.parents@.len() >= k0,
                forall|k: int| 0 <= k < k0 ==> #[trigger] self.parents@[k] == old_tree.parents@[k],
                self.split_from(*split, k0, len0),
                forall|q: &Q, p: &P| #[trigger] side.requires((q, p)),
                forall|q: &Q| #[trigger] split.requires((q,)),
                self.descent(path, point, *side),
                path.last() == node,
                old_tree.sited(*side) ==> self.sited(*side) && self.descent(rpath, resident, *side) && rpath.last() == node,
            decreases MAX_NODES - self.nodes@.len(),
        {
            if self.nodes.len() > MAX_NODES - 4 {
                let ghost before = *self;
                self.set_payload(node, Some(resident), resident_index);
                proof {
                    lemma_payload_step(before, *self, node as int, *side, *split, k0, len0);
                    if old_tree.sited(*side) {
                        lemma_descent_kept(before, *self, rpath, resident, *side);
                        assert(self.sits(node as int, resident, *side));
                    }
                    assert(self.holds_point(node as int, resident_index, resident));
                    self.lemma_keeps_held(before, node as int);
                    assert(self.holds_at(node as int, resident_index));
                    assert(self.nodes@.len() == before.nodes@.len());
                    assert forall|b: u32| old_tree.holds(b) implies #[trigger] self.holds(b) by {
                        if b != resident_index {
                            assert(before.holds(b));
                        }
                    }
                    assert forall|b: u32, p: P| #[trigger] self.occupied(b, p) <==> old_tree.occupied(b, p) by {
                        if old_tree.occupied(b, p) && !before.occupied(b, p) {
                            assert(self.holds_point(node as int, b, p));
                        }
                    }
                }
                return Placement::Full;
            }
            let quad = self.nodes[node].quad;
            let (q0, q1, q2, q3) = split(&quad);
            let ghost before = *self;
            let first = self.subdivide(node, q0, q1, q2, q3);
            let (rx, ry) = side(&quad, &resident);
            let (px, py) = side(&quad, &point);
            let qr = quadrant(rx, ry);
            let qp = quadrant(px, py);
            proof {
                let qs = (q0, q1, q2, q3);
                assert(subdivided(before, *self, node as int, qs));
                lemma_subdivide_occupied(before, *self, node as int, qs);
                lemma_subdivide_split(before, *self, node as int, qs, *split, k0, len0);
                lemma_descent_extend(before, *self, path, point, *side, qs, (px, py));
                path = path.push((first + qp) as usize);
                if old_tree.sited(*side) {
                    lemma_subdivide_sited(before, *self, node as int, qs, *side);
                    lemma_descent_extend(before, *self, rpath, resident, *side, qs, (rx, ry));
                    rpath = rpath.push((first + qr) as usize);
                }
                assert forall|b: u32| before.holds(b) implies #[trigger] self.holds(b) by {
                    let j = choose|j: int| before.holds_at(j, b);
                    assert(j != node);
                    assert(self.holds_at(j, b));
                }
            }
            if qr == qp {
                node = first + qr;
            } else {
                let ghost mid = *self;
                self.set_payload(first + qr, Some(resident), resident_index);
                proof {
                    lemma_payload_step(mid, *self, (first + qr) as int, *side, *split, k0, len0);
                    lemma_descent_kept(mid, *self, path, point, *side);
                    if old_tree.sited(*side) {
                        lemma_descent_kept(mid, *self, rpath, resident, *side);
                        assert(self.sits((first + qr) as int, resident, *side));
                    }
                    assert(self.holds_point((first + qr) as int, resident_index, resident));
                    self.lemma_keeps_held(mid, (first + qr) as int);
                    assert(self.holds_at((first + qr) as int, resident_index));
                }
                let ghost mid2 = *self;
                self.set_payload(first + qp, Some(point), body_index);
                proof {
                    lemma_payload_step(mid2, *self, (first + qp) as int, *side, *split, k0, len0);
                    lemma_descent_kept(mid2, *self, path, point, *side);
                    assert(self.sits((first + qp) as int, point, *side));
                    self.lemma_keeps_held(mid2, (first + qp) as int);
                    assert(self.holds_at((first + qr) as int, resident_index));
                    assert(self.holds_point((first + qr) as int, resident_index, resident));
                    assert forall|b: u32| old_tree.holds(b) implies #[trigger] self.holds(b) by {
                        if b != resident_index {
                            assert(mid.holds(b));
                        }
                    }
                    assert forall|b: u32, p: P| #[trigger] self.occupied(b, p) <==> old_tree.occupied(b, p)
                        || (b == body_index && p == point) by {
                        if old_tree.occupied(b, p) && !mid.occupied(b, p) {
                            assert(self.holds_point((first + qr) as int, b, p));
                        }
                        if b == body_index && p == point {
                            assert(self.holds_point((first + qp) as int, b, p));
                        }
                    }
                }
                return Placement::Placed(first + qp);
            }
        }
    }

    /// Writing into node `i`, which held no body or keeps its body index,
    /// leaves every held body held.
    proof fn lemma_keeps_held(self, before: Self, i: int)
        requires
            0 <= i < before.nodes@.len(),
            before.nodes@[i].point.is_none() || (self.nodes@[i].point.is_some()
                && self.nodes@[i].body_index == before.nodes@[i].body_index),
            self.nodes@ == before.nodes@.update(
                i,
                Node::<Q, P> {
                    point: self.nodes@[i].point,
                    body_index: self.nodes@[i].body_index,
                    ..before.nodes@[i]
                },
            ),
        ensures
            forall|b: u32| before.holds(b) ==> #[trigger] self.holds(b),
    {
        assert forall|b: u32| before.holds(b) implies #[trigger] self.holds(b) by {
            let j = choose|j: int| before.holds_at(j, b);
            assert(self.holds_at(j, b));
        }
    }
}

impl<Q: Copy, P: Copy> Quadtree<Q, P> {
    /// Rebuilds the tree over `root`, inserting `points[k]` as body `k` in
    /// order. Entry `k` of the result says where body `k` went.
    ///
    /// The bodies held at the end are exactly those placed on their own; a
    /// merged body names an earlier held body whose point `same` accepted.
    /// A placed body that nothing merged into later keeps its own point,
    /// and when nothing merged at all, or merging keeps sides, every
    /// occupied leaf ends the descent of its point.
    pub fn build<S, E, M, D>(
        &mut self,
        root: Q,
        points: &Vec<P>,
        side: &S,
        same: &E,
        merge: &M,
        split: &D,
    ) -> (r: Vec<Placement>)
        where
            S: Fn(&Q, &P) -> (bool, bool),
            E: Fn(&P, &P) -> bool,
            M: Fn(&P, &P) -> P,
            D: Fn(&Q) -> (Q, Q, Q, Q),
        requires
            points@.len() < NO_BODY,
            forall|q: &Q, p: &P| #[trigger] side.requires((q, p)),
            forall|a: &P, b: &P| #[trigger] same.requires((a, b)),
            forall|a: &P, b: &P| #[trigger] merge.requires((a, b)),
            forall|q: &Q| #[trigger] split.requires((q,)),
        ensures
            final(self).wf(),
            final(self).nodes@.len() > 0,
            final(self).nodes@[ROOT as int].quad == root,
            r@.len() == points@.len(),
            forall|b: u32| #[trigger] final(self).holds(b) <==> (b as int) < r@.len() && r@[b as int] is Placed,
            forall|k: int|
                0 <= k < r@.len() && #[trigger] r@[k] is Placed && no_merge_after(r@, k) ==> final(self).occupied(
                    k as u32,
                    points@[k],
                ),
            forall|k: int|
                0 <= k < r@.len() && #[trigger] r@[k] is Merged ==> exists|b: u32, q: P|
                    (b as int) < k && #[trigger] same.ensures((&q, &points@[k]), true) && #[trigger] final(self).holds(b),
            forall|k: int|
                0 <= k < r@.len() && #[trigger] r@[k] is Full ==> final(self).nodes@.len() + 4 > MAX_NODES,
            no_merge_after(r@, -1) || merge_keeps_sides::<Q, P, M, S>(*merge, *side) ==> final(self).sited(*side),
            no_merge_after(r@, -1) ==> forall|k: int|
                0 <= k < r@.len() && #[trigger] r@[k] is Placed ==> exists|i: int|
                    final(self).holds_point(i, k as u32, points@[k]) && #[trigger] final(self).sits(i, points@[k], *side),
    {
        self.clear(root);
        let mut out: Vec<Placement> = Vec::new();
        let mut k: usize = 0;
        proof {
            assert(self.sited(*side));
        }
        while k < points.len()
            invariant
                self.wf(),
                self.nodes@.len() > 0,
                self.nodes@[ROOT as int].quad == root,
                k <= points@.len(),
                points@.len() < NO_BODY,
                out@.len() == k,
                forall|q: &Q, p: &P| #[trigger] side.requires((q, p)),
                forall|a: &P, b: &P| #[trigger] same.requires((a, b)),
                forall|a: &P, b: &P| #[trigger] merge.requires((a, b)),
                forall|q: &Q| #[trigger] split.requires((q,)),
                forall|b: u32| #[trigger] self.holds(b) <==> (b as int) < out@.len() && out@[b as int] is Placed,
                forall|j: int|
                    0 <= j < out@.len() && #[trigger] out@[j] is Placed && no_merge_after(out@, j)
                        ==> self.occupied(j as u32, points@[j]),
                forall|j: int|
                    0 <= j < out@.len() && #[trigger] out@[j] is Merged ==> exists|b: u32, q: P|
                        (b as int) < j && #[trigger] same.ensures((&q, &points@[j]), true) && #[trigger] self.holds(b),
                forall|j: int|
                    0 <= j < out@.len() && #[trigger] out@[j] is Full ==> self.nodes@.len() + 4 > MAX_NODES,
                no_merge_after(out@, -1) || merge_keeps_sides::<Q, P, M, S>(*merge, *side) ==> self.sited(*side),
            decreases points@.len() - k,
        {
            let ghost before = *self;
            let ghost out0 = out@;
            let placed = self.insert(points[k], k as u32, side, same, merge, split);
            out.push(placed);
            proof {
                assert(out@ == out0.push(placed));
                assert(self.nodes@[ROOT as int].quad == root) by {
                    assert(before.nodes@[ROOT as int].quad == root);
                }
                assert forall|b: u32| #[trigger] self.holds(b) <==> (b as int) < out@.len() && out@[b as int] is Placed by {
                    if (b as int) < out0.len() {
                        assert(out@[b as int] == out0[b as int]);
                    }
                }
                assert forall|j: int|
                    0 <= j < out@.len() && #[trigger] out@[j] is Placed && no_merge_after(out@, j)
                        implies self.occupied(j as u32, points@[j]) by {
                    if j < out0.len() {
                        assert(out@[j] == out0[j]);
                        assert forall|l: int| j < l < out0.len() implies !(#[trigger] out0[l] is Merged) by {
                            assert(out@[l] == out0[l]);
                        }
                        assert(before.occupied(j as u32, points@[j]));
                        assert(!(placed is Merged)) by {
                            assert(out@[out0.len() as int] == placed);
                        }
                    } else {
                        let i = placed->Placed_0 as int;
                        assert(self.holds_point(i, k as u32, points@[j]));
                    }
                }
                assert forall|j: int|
                    0 <= j < out@.len() && #[trigger] out@[j] is Merged implies exists|b: u32, q: P|
                        (b as int) < j && #[trigger] same.ensures((&q, &points@[j]), true) && #[trigger] self.holds(b) by {
                    if j < out0.len() {
                        assert(out@[j] == out0[j]);
                        let (b, q) = choose|b: u32, q: P|
                            (b as int) < j && #[trigger] same.ensures((&q, &points@[j]), true) && #[trigger] before.holds(b);
                        assert(self.holds(b));
                    } else {
                        let i = placed->Merged_0 as int;
                        let b = before.nodes@[i].body_index;
                        assert(before.holds_at(i, b));
                        assert(before.holds(b));
                        assert(self.holds(b));
                        let q = before.nodes@[i].point->0;
                        assert(same.ensures((&q, &points@[j]), true));
                    }
                }
                assert forall|j: int| 0 <= j < out@.len() && #[trigger] out@[j] is Full implies self.nodes@.len() + 4
                    > MAX_NODES by {
                    if j < out0.len() {
                        assert(out@[j] == out0[j]);
                    }
                }
                if no_merge_after(out@, -1) {
                    assert forall|l: int| -1 < l < out0.len() implies !(#[trigger] out0[l] is Merged) by {
                        assert(out@[l] == out0[l]);
                    }
                    assert(out@[out0.len() as int] == placed);
                }
            }
            k = k + 1;
        }
        proof {
            if no_merge_after(out@, -1) {
                assert forall|j: int| 0 <= j < out@.len() && #[trigger] out@[j] is Placed implies exists|i: int|
                    self.holds_point(i, j as u32, points@[j]) && #[trigger] self.sits(i, points@[j], *side) by {
                    assert(no_merge_after(out@, j));
                    assert(self.occupied(j as u32, points@[j]));
                    let i = choose|i: int| #[trigger] self.holds_point(i, j as u32, points@[j]);
                    assert(self.nodes@[i].children == 0);
                    assert(self.sits(i, points@[j], *side));
                }
            }
        }
        out
    }
}

/// No entry of `r` after entry `j` is a merge.
pub open spec fn no_merge_after(r: Seq<Placement>, j: int) -> bool {
    forall|l: int| j < l < r.len() ==> !(#[trigger] r[l] is Merged)
}

/// `after` is `before` with leaf `node` split into four empty children
/// covering the regions of `qs`.
pub open spec fn subdivided<Q, P>(
    before: Quadtree<Q, P>,
    after: Quadtree<Q, P>,
    node: int,
    qs: (Q, Q, Q, Q),
) -> bool {
    let c = before.nodes@.len() as int;
    &&& 0 <= node < c
    &&& before.nodes@[node].children == 0
    &&& after.nodes@.len() == c + 4
    &&& after.parents@ == before.parents@.push(node as usize)
    &&& forall|i: int| 0 <= i < c && i != node ==> #[trigger] after.nodes@[i] == before.nodes@[i]
    &&& after.nodes@[node] == (Node::<Q, P> {
        children: c as u32,
        body_index: NO_BODY,
        point: None,
        ..before.nodes@[node]
    })
    &&& after.nodes@[c] == Node::<Q, P>::new_spec((c + 1) as u32, qs.0)
    &&& after.nodes@[c + 1] == Node::<Q, P>::new_spec((c + 2) as u32, qs.1)
    &&& after.nodes@[c + 2] == Node::<Q, P>::new_spec((c + 3) as u32, qs.2)
    &&& after.nodes@[c + 3] == Node::<Q, P>::new_spec(before.nodes@[node].next, qs.3)
}

/// Merging keeps a point on the same sides of every region's center.
pub open spec fn merge_keeps_sides<Q, P, M, S>(merge: M, side: S) -> bool
    where
        M: Fn(&P, &P) -> P,
        S: Fn(&Q, &P) -> (bool, bool),
{
    forall|a: P, b: P, m: P, q: Q, s: (bool, bool)|
        #[trigger] merge.ensures((&a, &b), m) && #[trigger] side.ensures((&q, &a), s) ==> side.ensures(
            (&q, &m),
            s,
        )
}

/// Writing a point and body index into leaf `i` changes the occupants only
/// at `i`, keeps every other leaf at the end of its point's descent, and
/// keeps the record of splits.
proof fn lemma_payload_step<Q, P, S, D>(
    before: Quadtree<Q, P>,
    after: Quadtree<Q, P>,
    i: int,
    side: S,
    split: D,
    k0: int,
    len0: int,
)
    where
        S: Fn(&Q, &P) -> (bool, bool),
        D: Fn(&Q) -> (Q, Q, Q, Q),
    requires
        before.wf(),
        0 <= i < before.nodes@.len(),
        before.nodes@[i].children == 0,
        after.parents@ == before.parents@,
        after.nodes@ == before.nodes@.update(
            i,
            Node::<Q, P> {
                point: after.nodes@[i].point,
                body_index: after.nodes@[i].body_index,
                ..before.nodes@[i]
            },
        ),
    ensures
        forall|b: u32, p: P| #[trigger] after.occupied(b, p) ==> before.occupied(b, p) || after.holds_point(i, b, p),
        forall|b: u32, p: P| #[trigger] before.occupied(b, p) ==> after.occupied(b, p) || before.holds_point(i, b, p),
        before.sited(side) && (after.nodes@[i].point.is_some() ==> after.sits(i, after.nodes@[i].point->0, side))
            ==> after.sited(side),
        before.split_from(split, k0, len0) ==> after.split_from(split, k0, len0),
{
    assert forall|b: u32, p: P| #[trigger] after.occupied(b, p) implies before.occupied(b, p) || after.holds_point(i, b, p) by {
        let j = choose|j: int| after.holds_point(j, b, p);
        if j != i {
            assert(before.holds_point(j, b, p));
        }
    }
    assert forall|b: u32, p: P| #[trigger] before.occupied(b, p) implies after.occupied(b, p) || before.holds_point(i, b, p) by {
        let j = choose|j: int| before.holds_point(j, b, p);
        if j != i {
            assert(after.holds_point(j, b, p));
        }
    }
    if before.sited(side) && (after.nodes@[i].point.is_some() ==> after.sits(i, after.nodes@[i].point->0, side)) {
        assert forall|j: int|
            0 <= j < after.nodes@.len() && (#[trigger] after.nodes@[j]).children == 0
                && after.nodes@[j].point.is_some() implies after.sits(j, after.nodes@[j].point->0, side) by {
            if j != i {
                assert(before.nodes@[j] == after.nodes@[j]);
                let p = before.nodes@[j].point->0;
                assert(before.sits(j, p, side));
                let path = choose|path: Seq<usize>| #[trigger] before.descent(path, p, side) && path.last() == j;
                lemma_descent_on_path(before, after, path, p, side);
            }
        }
    }
    if before.split_from(split, k0, len0) {
        assert forall|k: int| k0 <= k < after.parents@.len() implies {
            let p = #[trigger] after.parents@[k] as int;
            let c = after.nodes@[p].children as int;
            &&& c == len0 + 4 * (k - k0)
            &&& split.ensures(
                (&after.nodes@[p].quad,),
                (after.nodes@[c].quad, after.nodes@[c + 1].quad, after.nodes@[c + 2].quad, after.nodes@[c + 3].quad),
            )
        } by {
            let p = before.parents@[k] as int;
            assert(before.nodes@[p].children != 0);
            let c = before.nodes@[p].children as int;
            assert(c + 3 < before.nodes@.len());
            assert(after.nodes@[c].quad == before.nodes@[c].quad);
            assert(after.nodes@[c + 1].quad == before.nodes@[c + 1].quad);
            assert(after.nodes@[c + 2].quad == before.nodes@[c + 2].quad);
            assert(after.nodes@[c + 3].quad == before.nodes@[c + 3].quad);
        }
    }
}

/// Splitting an empty leaf changes no occupant.
proof fn lemma_subdivide_occupied<Q, P>(before: Quadtree<Q, P>, after: Quadtree<Q, P>, node: int, qs: (Q, Q, Q, Q))
    requires
        subdivided(before, after, node, qs),
        before.nodes@[node].point.is_none(),
    ensures
        forall|b: u32, p: P| #[trigger] after.occupied(b, p) <==> before.occupied(b, p),
{
    let c = before.nodes@.len() as int;
    assert forall|b: u32, p: P| #[trigger] after.occupied(b, p) <==> before.occupied(b, p) by {
        if after.occupied(b, p) {
            let j = choose|j: int| after.holds_point(j, b, p);
            assert(j < c && j != node);
            assert(before.holds_point(j, b, p));
        }
        if before.occupied(b, p) {
            let j = choose|j: int| before.holds_point(j, b, p);
            assert(j != node);
            assert(after.holds_point(j, b, p));
        }
    }
}

/// Splitting an empty leaf keeps every occupied leaf at the end of its
/// point's descent.
proof fn lemma_subdivide_sited<Q, P, S>(
    before: Quadtree<Q, P>,
    after: Quadtree<Q, P>,
    node: int,
    qs: (Q, Q, Q, Q),
    side: S,
)
    where
        S: Fn(&Q, &P) -> (bool, bool),
    requires
        subdivided(before, after, node, qs),
        before.nodes@[node].point.is_none(),
        before.sited(side),
    ensures
        after.sited(side),
{
    let c = before.nodes@.len() as int;
    {
        assert forall|j: int|
            0 <= j < after.nodes@.len() && (#[trigger] after.nodes@[j]).children == 0
                && after.nodes@[j].point.is_some() implies after.sits(j, after.nodes@[j].point->0, side) by {
            assert(j < c && j != node);
            assert(before.nodes@[j] == after.nodes@[j]);
            let p = before.nodes@[j].point->0;
            assert(before.sits(j, p, side));
            let path = choose|path: Seq<usize>| #[trigger] before.descent(path, p, side) && path.last() == j;
            assert forall|k: int| 0 <= k < path.len() implies (#[trigger] path[k]) < after.nodes@.len()
                && after.nodes@[path[k] as int].children == before.nodes@[path[k] as int].children
                && after.nodes@[path[k] as int].quad == before.nodes@[path[k] as int].quad by {
                if k < path.len() - 1 {
                    assert(before.descends_into(path, k, p, side));
                }
            }
            lemma_descent_on_path(before, after, path, p, side);
        }
    }
}

/// Splitting a leaf with the regions `split` gave records the split.
proof fn lemma_subdivide_split<Q, P, D>(
    before: Quadtree<Q, P>,
    after: Quadtree<Q, P>,
    node: int,
    qs: (Q, Q, Q, Q),
    split: D,
    k0: int,
    len0: int,
)
    where
        D: Fn(&Q) -> (Q, Q, Q, Q),
    requires
        before.wf(),
        subdivided(before, after, node, qs),
        split.ensures((&before.nodes@[node].quad,), qs),
        before.split_from(split, k0, len0),
    ensures
        after.split_from(split, k0, len0),
{
    let c = before.nodes@.len() as int;
    {
        assert forall|k: int| k0 <= k < after.parents@.len() implies {
            let p = #[trigger] after.parents@[k] as int;
            let cc = after.nodes@[p].children as int;
            &&& cc == len0 + 4 * (k - k0)
            &&& split.ensures(
                (&after.nodes@[p].quad,),
                (after.nodes@[cc].quad, after.nodes@[cc + 1].quad, after.nodes@[cc + 2].quad, after.nodes@[cc + 3].quad),
            )
        } by {
            if k < before.parents@.len() {
                let p = before.parents@[k] as int;
                assert(before.nodes@[p].children != 0);
                assert(p != node);
                let cc = before.nodes@[p].children as int;
                assert(cc + 3 < c);
                assert(after.nodes@[cc].quad == before.nodes@[cc].quad);
                assert(after.nodes@[cc + 1].quad == before.nodes@[cc + 1].quad);
                assert(after.nodes@[cc + 2].quad == before.nodes@[cc + 2].quad);
                assert(after.nodes@[cc + 3].quad == before.nodes@[cc + 3].quad);
            }
        }
    }
    let k = before.parents@.len() as int;
    assert(after.parents@[k] == node);
}

/// Splitting the leaf that ends a descent of `p` extends that descent into
/// the child on the sides that `side` reported.
proof fn lemma_descent_extend<Q, P, S>(
    before: Quadtree<Q, P>,
    after: Quadtree<Q, P>,
    path: Seq<usize>,
    p: P,
    side: S,
    qs: (Q, Q, Q, Q),
    s: (bool, bool),
)
    where
        S: Fn(&Q, &P) -> (bool, bool),
    requires
        before.descent(path, p, side),
        before.nodes@.len() + 4 <= MAX_NODES,
        subdivided(before, after, path.last() as int, qs),
        side.ensures((&before.nodes@[path.last() as int].quad, &p), s),
    ensures
        after.descent(path.push((before.nodes@.len() + quadrant_index(s.0, s.1)) as usize), p, side),
{
    let c = before.nodes@.len() as int;
    let node = path.last() as int;
    let np = path.push((c + quadrant_index(s.0, s.1)) as usize);
    assert forall|k: int| 0 <= k < np.len() - 1 implies #[trigger] after.descends_into(np, k, p, side) by {
        if k < path.len() - 1 {
            assert(before.descends_into(path, k, p, side));
            assert(path[k] != node);
            let n = before.nodes@[path[k] as int];
            let w = choose|w: (bool, bool)|
                side.ensures((&n.quad, &p), w) && path[k + 1] == n.children + quadrant_index(w.0, w.1);
            assert(after.nodes@[path[k] as int] == n);
            assert(np[k + 1] == path[k + 1]);
        } else {
            assert(np[k] == node);
            assert(after.nodes@[node].quad == before.nodes@[node].quad);
            assert(after.nodes@[node].children as int == c);
            assert(np[k + 1] == c + quadrant_index(s.0, s.1));
            assert(side.ensures((&after.nodes@[node].quad, &p), s));
        }
    }
    assert forall|k: int| 0 <= k < np.len() implies (#[trigger] np[k]) < after.nodes@.len() by {
        if k < path.len() {
            assert(path[k] < before.nodes@.len());
        }
    }
}

/// Where merging keeps sides, the descent of a point is also a descent of
/// what it merges into.
proof fn lemma_merge_descent<Q, P, S, M>(
    tree: Quadtree<Q, P>,
    path: Seq<usize>,
    a: P,
    b: P,
    m: P,
    side: S,
    merge: M,
)
    where
        S: Fn(&Q, &P) -> (bool, bool),
        M: Fn(&P, &P) -> P,
    requires
        tree.descent(path, a, side),
        merge.ensures((&a, &b), m),
        merge_keeps_sides::<Q, P, M, S>(merge, side),
    ensures
        tree.descent(path, m, side),
{
    assert forall|k: int| 0 <= k < path.len() - 1 implies #[trigger] tree.descends_into(path, k, m, side) by {
        assert(tree.descends_into(path, k, a, side));
        let n = tree.nodes@[path[k] as int];
        let w = choose|w: (bool, bool)|
            side.ensures((&n.quad, &a), w) && path[k + 1] == n.children + quadrant_index(w.0, w.1);
        assert(side.ensures((&n.quad, &m), w));
    }
}

/// The held body indices follow the occupants.
proof fn lemma_holds_of_occupied<Q, P>(
    before: Quadtree<Q, P>,
    after: Quadtree<Q, P>,
    b_new: u32,
    p_new: P,
    added: bool,
)
    requires
        forall|b: u32, p: P| #[trigger] after.occupied(b, p) <==> before.occupied(b, p)
            || (added && b == b_new && p == p_new),
    ensures
        forall|b: u32| #[trigger] after.holds(b) <==> before.holds(b) || (added && b == b_new),
{
    assert forall|b: u32| #[trigger] after.holds(b) <==> before.holds(b) || (added && b == b_new) by {
        if after.holds(b) {
            let i = choose|i: int| after.holds_at(i, b);
            let p = after.nodes@[i].point->0;
            assert(after.holds_point(i, b, p));
            assert(after.occupied(b, p));
            assert(before.occupied(b, p) || (added && b == b_new && p == p_new));
            if before.occupied(b, p) {
                let j = choose|j: int| before.holds_point(j, b, p);
                assert(before.holds_at(j, b));
            }
        }
        if before.holds(b) {
            let i = choose|i: int| before.holds_at(i, b);
            let p = before.nodes@[i].point->0;
            assert(before.holds_point(i, b, p));
            assert(before.occupied(b, p));
            assert(after.occupied(b, p));
            let j = choose|j: int| after.holds_point(j, b, p);
            assert(after.holds_at(j, b));
        }
        if added && b == b_new {
            assert(after.occupied(b, p_new));
            let j = choose|j: int| after.holds_point(j, b, p_new);
            assert(after.holds_at(j, b));
        }
    }
}

} // verus!

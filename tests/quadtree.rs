use nbody_simulation::{light_chunk_len, quadrant, quadrant_sides, Node, Placement, Quadtree, NO_BODY, ROOT};

/// A square region: center x, center y, edge length.
type Sq = (f32, f32, f32);
/// A point mass: x, y, mass.
type Pm = (f32, f32, f32);

fn side(q: &Sq, p: &Pm) -> (bool, bool) {
    (p.0 > q.0, p.1 > q.1)
}

fn same(a: &Pm, b: &Pm) -> bool {
    a.0 == b.0 && a.1 == b.1
}

fn merge(a: &Pm, b: &Pm) -> Pm {
    (a.0, a.1, a.2 + b.2)
}

fn split(q: &Sq) -> (Sq, Sq, Sq, Sq) {
    let s = q.2 * 0.5;
    let sub = |k: usize| {
        (
            q.0 + ((k & 1) as f32 - 0.5) * s,
            q.1 + ((k >> 1) as f32 - 0.5) * s,
            s,
        )
    };
    (sub(0), sub(1), sub(2), sub(3))
}

fn combine(a: &Option<Pm>, b: &Option<Pm>, c: &Option<Pm>, d: &Option<Pm>) -> Option<Pm> {
    let mut m = 0.0f32;
    let mut x = 0.0f32;
    let mut y = 0.0f32;
    for p in [a, b, c, d].iter().filter_map(|p| p.as_ref()) {
        m += p.2;
        x += p.0 * p.2;
        y += p.1 * p.2;
    }
    if m > 0.0 {
        Some((x / m, y / m, m))
    } else {
        None
    }
}

fn containing(points: &[Pm]) -> Sq {
    let (mut lx, mut ly, mut hx, mut hy) = (f32::MAX, f32::MAX, f32::MIN, f32::MIN);
    for p in points {
        lx = lx.min(p.0);
        ly = ly.min(p.1);
        hx = hx.max(p.0);
        hy = hy.max(p.1);
    }
    ((lx + hx) * 0.5, (ly + hy) * 0.5, (hx - lx).max(hy - ly))
}

fn built(points: &[Pm]) -> (Quadtree<Sq, Pm>, Vec<Placement>) {
    let mut t: Quadtree<Sq, Pm> = Quadtree::new();
    let pts = points.to_vec();
    let placed = t.build(containing(points), &pts, &side, &same, &merge, &split);
    t.propagate(combine);
    (t, placed)
}

/// Softened Barnes–Hut acceleration at `pos`, summed over the walk's frontier.
fn acc(t: &Quadtree<Sq, Pm>, pos: (f32, f32), t_sq: f32, e_sq: f32) -> (f32, f32) {
    let opened = |n: &Node<Sq, Pm>| {
        let (px, py, _) = n.point.unwrap_or((0.0, 0.0, 0.0));
        let (dx, dy) = (px - pos.0, py - pos.1);
        !(n.quad.2 * n.quad.2 < (dx * dx + dy * dy) * t_sq)
    };
    let mut a = (0.0f32, 0.0f32);
    for i in t.frontier(opened) {
        if let Some((px, py, m)) = t.nodes[i].point {
            if m > 1e-10 {
                let (dx, dy) = (px - pos.0, py - pos.1);
                let d2 = dx * dx + dy * dy + e_sq;
                let den = d2 * d2.sqrt();
                if den > 0.0 {
                    a.0 += dx * m / den;
                    a.1 += dy * m / den;
                }
            }
        }
    }
    a
}

#[test]
fn quadrant_bits() {
    assert_eq!(quadrant(false, false), 0);
    assert_eq!(quadrant(true, false), 1);
    assert_eq!(quadrant(false, true), 2);
    assert_eq!(quadrant(true, true), 3);
}

#[test]
fn quadrant_sides_inverts_quadrant() {
    assert_eq!(quadrant_sides(0), (false, false));
    assert_eq!(quadrant_sides(1), (true, false));
    assert_eq!(quadrant_sides(2), (false, true));
    assert_eq!(quadrant_sides(3), (true, true));
    for q in 0..4 {
        let (r, a) = quadrant_sides(q);
        assert_eq!(quadrant(r, a), q);
    }
}

#[test]
fn insert_into_empty_root_keeps_node_count() {
    let mut t: Quadtree<Sq, Pm> = Quadtree::new();
    t.clear((0.0, 0.0, 4.0));
    let r = t.insert((1.0, -1.0, 2.0), 7, &side, &same, &merge, &split);
    assert!(matches!(r, Placement::Placed(ROOT)));
    assert_eq!(t.nodes.len(), 1);
    assert_eq!(t.nodes[ROOT].body_index, 7);
    assert_eq!(t.nodes[ROOT].point, Some((1.0, -1.0, 2.0)));
}

#[test]
fn propagate_combines_children_deepest_first() {
    let pts = vec![(0.1, 0.1, 1.0), (0.2, 0.2, 3.0), (5.0, 5.0, 2.0)];
    let (t, _) = built(&pts);
    for &p in &t.parents {
        let c = t.nodes[p].children as usize;
        let expect = combine(
            &t.nodes[c].point,
            &t.nodes[c + 1].point,
            &t.nodes[c + 2].point,
            &t.nodes[c + 3].point,
        );
        assert_eq!(t.nodes[p].point, expect);
    }
    assert_eq!(t.nodes[ROOT].point.unwrap().2, 6.0);
}

#[test]
fn clear_leaves_one_empty_root() {
    let mut t: Quadtree<Sq, Pm> = Quadtree::new();
    t.clear((0.0, 0.0, 4.0));
    assert_eq!(t.nodes.len(), 1);
    assert_eq!(t.nodes[ROOT].next, 0);
    assert!(t.nodes[ROOT].is_leaf());
    assert_eq!(t.nodes[ROOT].body_index, NO_BODY);
}

#[test]
fn propagate_on_cleared_tree_keeps_massless_root() {
    let mut t: Quadtree<Sq, Pm> = Quadtree::new();
    t.clear((1.0, 1.0, 2.0));
    t.propagate(combine);
    assert_eq!(t.nodes.len(), 1);
    assert!(t.nodes[ROOT].is_empty());
    assert!(t.parents.is_empty());
}

#[test]
fn coincident_bodies_merge() {
    let mut t: Quadtree<Sq, Pm> = Quadtree::new();
    t.clear((0.0, 0.0, 10.0));
    let a = t.insert((2.0, 3.0, 1.0), 0, &side, &same, &merge, &split);
    assert!(matches!(a, Placement::Placed(0)));
    let count = t.nodes.len();
    let b = t.insert((2.0, 3.0, 4.0), 1, &side, &same, &merge, &split);
    match b {
        Placement::Merged(i) => {
            assert_eq!(t.nodes[i].point, Some((2.0, 3.0, 5.0)));
            assert_eq!(t.nodes[i].body_index, 0);
        }
        _ => panic!("expected a merge"),
    }
    assert_eq!(t.nodes.len(), count);
}

#[test]
fn split_separates_two_bodies() {
    let mut t: Quadtree<Sq, Pm> = Quadtree::new();
    t.clear((0.0, 0.0, 8.0));
    t.insert((-1.0, -1.0, 1.0), 0, &side, &same, &merge, &split);
    let r = t.insert((1.0, 1.0, 2.0), 1, &side, &same, &merge, &split);
    assert!(matches!(r, Placement::Placed(4)));
    assert_eq!(t.nodes.len(), 5);
    assert_eq!(t.parents, vec![0]);
    assert_eq!(t.nodes[0].children, 1);
    let nexts: Vec<u32> = t.nodes[1..].iter().map(|n| n.next).collect();
    assert_eq!(nexts, vec![2, 3, 4, 0]);
    assert_eq!(t.nodes[1].body_index, 0);
    assert_eq!(t.nodes[4].body_index, 1);
    assert_eq!(t.nodes[2].point, None);
}

#[test]
fn ties_go_to_lower_quadrant() {
    let mut t: Quadtree<Sq, Pm> = Quadtree::new();
    t.clear((0.0, 0.0, 8.0));
    t.insert((0.0, 0.0, 1.0), 0, &side, &same, &merge, &split);
    t.insert((1.0, 0.0, 1.0), 1, &side, &same, &merge, &split);
    assert_eq!(t.nodes[1].body_index, 0);
    assert_eq!(t.nodes[2].body_index, 1);
}

#[test]
fn deep_split_keeps_child_first_order() {
    let pts = vec![(0.1, 0.1, 1.0), (0.2, 0.2, 1.0), (5.0, 5.0, 1.0), (0.15, 0.12, 1.0)];
    let (t, placed) = built(&pts);
    assert!(placed.iter().all(|p| matches!(p, Placement::Placed(_))));
    for (k, &p) in t.parents.iter().enumerate() {
        let c = t.nodes[p].children as usize;
        assert!(c > p);
        assert_eq!(t.nodes[c + 3].next, t.nodes[p].next);
        for later in &t.parents[..k] {
            assert!(!(c..c + 4).contains(later));
        }
    }
    for b in 0..pts.len() as u32 {
        let leaf = t.nodes.iter().find(|n| n.is_leaf() && n.body_index == b).unwrap();
        assert_eq!(leaf.point, Some(pts[b as usize]));
    }
}

#[test]
fn root_mass_is_total_mass() {
    let pts = vec![(0.0, 0.0, 1.0), (4.0, 0.0, 3.0), (0.0, 4.0, 2.0), (4.0, 4.0, 2.0)];
    let (t, _) = built(&pts);
    let (x, y, m) = t.nodes[ROOT].point.unwrap();
    assert_eq!(m, 8.0);
    assert!((x - 2.5).abs() < 1e-5);
    assert!((y - 2.0).abs() < 1e-5);
}

#[test]
fn two_body_free_fall() {
    let pts = vec![(0.0, 0.0, 1.0), (10.0, 0.0, 1.0)];
    let (t, _) = built(&pts);
    let a = acc(&t, (0.0, 0.0), 0.0, 0.0);
    let b = acc(&t, (10.0, 0.0), 0.0, 0.0);
    assert!((a.0 - 0.01).abs() < 1e-6 && a.1 == 0.0);
    assert!((b.0 + 0.01).abs() < 1e-6 && b.1 == 0.0);
}

#[test]
fn single_central_body_force() {
    let pts = vec![(0.0, 0.0, 100.0), (1.0, 0.0, 1.0)];
    let (t, _) = built(&pts);
    let a = acc(&t, (1.0, 0.0), 1.0, 0.0);
    assert!((a.0 + 100.0).abs() < 1e-3);
    assert_eq!(a.1, 0.0);
}

#[test]
fn exact_walk_matches_direct_sum() {
    let mut pts = Vec::new();
    let mut s: u32 = 12345;
    for _ in 0..64 {
        s = s.wrapping_mul(1103515245).wrapping_add(12345);
        let x = (s >> 8) as f32 / (1u32 << 24) as f32 * 100.0;
        s = s.wrapping_mul(1103515245).wrapping_add(12345);
        let y = (s >> 8) as f32 / (1u32 << 24) as f32 * 100.0;
        pts.push((x, y, 1.0));
    }
    let (t, _) = built(&pts);
    let e_sq = 1.0;
    for p in &pts {
        let a = acc(&t, (p.0, p.1), 0.0, e_sq);
        let mut d = (0.0f32, 0.0f32);
        for q in &pts {
            let (dx, dy) = (q.0 - p.0, q.1 - p.1);
            let d2 = dx * dx + dy * dy + e_sq;
            let den = d2 * d2.sqrt();
            d.0 += dx * q.2 / den;
            d.1 += dy * q.2 / den;
        }
        let mag = (d.0 * d.0 + d.1 * d.1).sqrt().max(1e-6);
        let err = ((a.0 - d.0).powi(2) + (a.1 - d.1).powi(2)).sqrt();
        assert!(err / mag < 1e-4);
    }
}

#[test]
fn frontier_skips_rejected_subtrees() {
    let pts = vec![(0.1, 0.1, 1.0), (0.2, 0.2, 1.0), (5.0, 5.0, 1.0)];
    let (t, _) = built(&pts);
    assert_eq!(t.frontier(|_| false), vec![ROOT]);
    let all = t.frontier(|_| true);
    let leaves = t.nodes.iter().filter(|n| n.is_leaf()).count();
    assert_eq!(all.len(), leaves);
    assert!(all.iter().all(|&i| t.nodes[i].is_leaf()));
}

#[test]
fn collision_candidates_exclude_self() {
    let pts = vec![(0.0, 0.0, 1.0), (1.5, 0.0, 1.0), (8.0, 8.0, 1.0)];
    let (t, _) = built(&pts);
    let (px, py, r) = (0.0f32, 0.0f32, 1.2f32);
    let overlaps = |q: &Sq| {
        let h = q.2 * 0.5;
        px + r > q.0 - h && px - r < q.0 + h && py + r > q.1 - h && py - r < q.1 + h
    };
    let found = t.find_collisions(0, overlaps);
    assert_eq!(found, vec![1]);
}

#[test]
fn light_chunks_aim_at_four_per_worker() {
    assert_eq!(light_chunk_len(1000, 8), 31);
    assert_eq!(light_chunk_len(1_000_000, 16), 15625);
    assert_eq!(light_chunk_len(10, 8), 1);
    assert_eq!(light_chunk_len(0, 4), 1);
    assert_eq!(light_chunk_len(100, 0), 25);
}

#[test]
fn split_keeps_resident_point_and_records_regions() {
    let mut t: Quadtree<Sq, Pm> = Quadtree::new();
    t.clear((0.0, 0.0, 8.0));
    t.insert((0.5, 0.5, 3.0), 0, &side, &same, &merge, &split);
    let r = t.insert((1.5, 1.5, 2.0), 1, &side, &same, &merge, &split);
    assert!(matches!(r, Placement::Placed(_)));
    assert_eq!(t.nodes.len(), 1 + 4 * t.parents.len());
    for (k, &p) in t.parents.iter().enumerate() {
        let c = t.nodes[p].children as usize;
        assert_eq!(c, 1 + 4 * k);
        let (a, b, cc, d) = split(&t.nodes[p].quad);
        assert_eq!(
            [t.nodes[c].quad, t.nodes[c + 1].quad, t.nodes[c + 2].quad, t.nodes[c + 3].quad],
            [a, b, cc, d]
        );
    }
    let held: Vec<(u32, Pm)> = t
        .nodes
        .iter()
        .filter(|n| n.is_leaf() && !n.is_empty())
        .map(|n| (n.body_index, n.point.unwrap()))
        .collect();
    assert_eq!(held.len(), 2);
    assert!(held.contains(&(0, (0.5, 0.5, 3.0))));
    assert!(held.contains(&(1, (1.5, 1.5, 2.0))));
}

#[test]
fn build_holds_exactly_the_placed_bodies() {
    let pts = vec![(1.0, 1.0, 1.0), (3.0, 3.0, 1.0), (1.0, 1.0, 2.0), (2.0, 3.0, 1.0)];
    let mut t: Quadtree<Sq, Pm> = Quadtree::new();
    let placed = t.build(containing(&pts), &pts, &side, &same, &merge, &split);
    assert!(matches!(placed[2], Placement::Merged(_)));
    let mut held: Vec<u32> = t
        .nodes
        .iter()
        .filter(|n| n.is_leaf() && !n.is_empty())
        .map(|n| n.body_index)
        .collect();
    held.sort();
    assert_eq!(held, vec![0, 1, 3]);
    let leaf0 = t.nodes.iter().find(|n| n.is_leaf() && n.body_index == 0).unwrap();
    assert_eq!(leaf0.point, Some((1.0, 1.0, 3.0)));
}

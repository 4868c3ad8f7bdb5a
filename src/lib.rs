//! Verified core of a two-dimensional Barnes–Hut N-body simulator.
//!
//! The library owns the flat-arena quadtree: its index links, the order in
//! which internal nodes are recorded, insertion with merging of coincident
//! bodies, bottom-up propagation and the skip-pointer traversals. The tree is
//! generic over the payloads it stores: a region `Q` per node and a point mass
//! `P` per occupied node. Geometric decisions on those payloads are handed in
//! as closures, so every index manipulation is proved for any geometry.
mod geometry;
mod insert;
mod propagate;
pub mod quadtree;
mod schedule;
mod walk;

pub use geometry::{quadrant, quadrant_sides};
pub use propagate::lemma_propagate_cleared;
pub use walk::{lemma_full_walk_visits_all, lemma_walk_visits_once};
pub use schedule::light_chunk_len;
pub use quadtree::{Node, Placement, Quadtree, MAX_NODES, NO_BODY, ROOT};

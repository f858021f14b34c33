//! A loose quadtree for the broad phase of collision detection, with a
//! linear-scan index to compare it against.
//!
//! Boxes live on an integer grid (`aabb`). The tree (`loose_quad_tree`)
//! answers a query with the stored entries whose box intersects it; what it
//! returns is stated over plain geometry (`placement`) and over the scan
//! (`naive`, `hits`), and `laws` holds what follows for the tree as a whole.
//! A world is split into quadrants that tile it exactly, so a side of odd
//! length gives a right or bottom quadrant one unit larger than its
//! neighbour.

pub mod aabb;
pub mod hits;
pub mod naive;
pub mod placement;
mod node;
mod arena;
mod growth;
mod trail;
mod descent;
pub mod loose_quad_tree;
pub mod laws;

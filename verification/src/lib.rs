//! Deterministic RTS core: fixed-point math, flow fields, staggered spatial
//! hashing and hierarchical region-based pathfinding.
pub mod fixed;
pub mod flow_field;
pub mod pathfinding;
pub mod spatial_hash;
pub mod simulation;
pub mod boids;

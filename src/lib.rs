//! Simulation core of a small 3D engine: a sparse, entity-indexed store of
//! hierarchical transforms, and a mass-spring softbody engine that feeds its
//! bodies' motion back into that store. All quantities are fixed point.
pub mod buffer;
pub mod entity;
pub mod fixed;
pub mod softbody;
pub mod spatial;
pub mod transform;
pub mod vector;

//! A dynamic bounding-volume hierarchy over a changing set of primitives,
//! kept in flat, index-addressed storage.
pub mod aabb;
pub mod node;
pub mod bvh;
pub mod laws;

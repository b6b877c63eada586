//! Bounding-volume hierarchies for a ray tracer, on integer (fixed-point)
//! scene coordinates.
pub mod aabb;
pub mod vec3;
pub mod sort;
pub mod bvh;
pub mod geometry;

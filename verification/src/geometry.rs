//! The shapes that a scene is made of.
pub mod mesh;
pub mod sphere;

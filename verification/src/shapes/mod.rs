//! The kinds of shape that a scene is made of.

pub mod plane;
pub mod sphere;

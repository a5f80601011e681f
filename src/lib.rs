//! Lattice diffusion-limited aggregation: particles seeded on a grid walk with
//! a downward bias until they freeze against the floor or the growing cluster.

mod random;

pub mod grid;
pub mod stuck;
pub mod motion;
pub mod engine;
pub mod render;

pub use grid::{ColorizedPoint, DLAField, FieldError, FieldPosition};

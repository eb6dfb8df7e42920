//! A perfect-maze generator: a randomized depth-first walk over a grid, the
//! wall and passage frame carved from its trace, and the renderings of both.

pub mod geometry;
pub mod stack;
pub mod moves;
pub mod random;
pub mod walk;
pub mod engine;
pub mod frame;
pub mod text;
pub mod render;
pub mod count;
pub mod raster;
pub mod tree;

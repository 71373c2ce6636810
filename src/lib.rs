//! A fixed-size Game of Life grid with Conway's B3/S23 rule, a line-based
//! text encoding and a projection of live cells to drawable points.
pub mod life;
pub mod render;
pub mod text;
pub mod universe;

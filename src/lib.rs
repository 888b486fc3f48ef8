//! Decoding of nested record containers holding hierarchical per-pixel
//! attribute grids, and resolution of those grids into pixel values.

pub mod container;
pub mod grid;
pub mod color;
pub mod asset;
pub mod batch;

//! The hexagon and its triangular mesh.

pub mod geometry;
pub mod properties;
pub mod triangular;

pub use geometry::{Cell, HexGrid, Point};
pub use triangular::TriangularGrid;

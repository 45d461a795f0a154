//! Procedural generation of hexagonal logos on an exact triangular lattice.
//!
//! A regular hexagon is cut into triangular cells, connected groups of cells
//! are grown into shapes, and the shapes are coloured so that neighbours
//! differ.  All geometry is integer arithmetic on lattice coordinates, so
//! every decision the engine takes is exact and can be stated as a contract.

pub mod cli;
pub mod math;
pub mod sorting;
pub mod svg;
pub mod generator;
pub mod utils;

pub use crate::generator::Generator;

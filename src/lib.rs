//! Fabrication-feasible binary designs: brushes, the per-pixel constraint
//! engine of a design, and the greedy generator that drives it.
pub mod grid;
pub mod brushes;
pub mod scan;
pub mod design;
pub mod generator;
pub mod status;
pub mod views;
pub mod visualization;
pub mod counter;
pub mod sparse;
pub mod consistency;
pub mod bytes;

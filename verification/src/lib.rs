//! An adjacency-constrained tiling generator in the family of wave function
//! collapse algorithms: a rectangular grid is filled with tiles from a
//! finite catalog so that every pair of horizontally or vertically adjacent
//! tiles satisfies a declared, symmetric compatibility relation.
//!
//! The core is the constraint-propagation and contradiction-recovery loop:
//! each cell keeps the set of tile candidates still consistent with all
//! already-placed neighbours; placing a tile narrows neighbouring sets and
//! schedules further narrowing; an emptied set is a contradiction and the
//! whole attempt restarts from scratch. A finished grid is proved complete
//! and adjacency-valid.
//!
//! Around the core sit two much simpler collaborators, specified only at
//! their boundary: a palette generator with a greedy nearest-color
//! flood-fill canvas, and the window/rendering host, which lives outside
//! this library.

pub mod canvas;
pub mod colors;
pub mod engine;
pub mod generate;
pub mod grid;
pub mod random;
pub mod rules;
pub mod side;

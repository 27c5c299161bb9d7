//! Exact-cover solver for packing thirteen polycube pieces into a 4x4x4 cube.

pub mod coverage;
pub mod dedup;
pub mod geometry;
pub mod placements;
pub mod search;
pub mod solver;
pub mod stats;
pub mod symmetry;
pub mod text;
pub mod transform;

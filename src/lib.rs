//! A maze-solving engine for a micromouse runner on a 16 by 16 grid.
//!
//! The runner senses walls around it, keeps a map of the walls it has seen,
//! maintains for every cell its distance to the central goal region with a
//! worklist-driven wavefront relaxation, and picks each next move from those
//! distances.
pub mod cell_state;
pub mod floodfill;
pub mod geometry;
pub mod laws;
pub mod model;
pub mod protocol;
pub mod worklist;

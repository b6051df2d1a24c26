//! The solver for sparse boards: a board is a set of placed tiles.
pub mod connect;
pub mod direction;
pub mod laws;
pub mod lut;
pub mod solver;
pub mod utils;

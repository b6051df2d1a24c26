//! The solver for dense boards: a board is a rectangle of cells, each empty or holding a tile.
pub mod components;
pub mod connect;
pub mod laws;
pub mod matching;
pub mod solver;
pub mod tiles;
pub mod transform;

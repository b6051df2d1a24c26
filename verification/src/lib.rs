//! A solver for Sichuan (Shisen-Sho) tile-matching boards.
//!
//! Two tiles with the same label may be taken off the board together when a
//! rectilinear path with at most two bends joins them without crossing any
//! other tile. The library decides whether such a path exists, and searches
//! for an order of removals that clears a whole board.
pub mod canvas;
pub mod components;
pub mod dense;
pub mod geometry;
pub mod order;
pub mod solver;

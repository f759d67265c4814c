//! Shortest routes on an unobstructed, 4-connected integer grid, found by a
//! best-first (A*) search under the Manhattan heuristic.
pub mod frontier;
pub mod grid;
pub mod search;

//! A random rectangular maze with blocked borders, searched breadth-first
//! from a random start cell to a random finish cell, with shortest-path
//! reconstruction and a record of the visit order for external rendering.

pub mod config;
pub mod matrix;
pub mod solver;

//! Exact minimum-cost Hamiltonian paths with fixed endpoints over a small
//! complete weighted graph, by bitmask dynamic programming (Held-Karp) and by
//! exhaustive enumeration of the intermediate nodes.

pub mod model;
pub mod masks;
pub mod held_karp;
pub mod brute_force;
pub mod laws;
pub mod types;
pub mod matrix;
pub mod tsp;
pub mod url;

//! Exact Traveling Salesman solving by Held-Karp dynamic programming.
//!
//! The solver owns an immutable distance matrix, a lazily filled memo table
//! keyed by `(visited-set bitmask, current city)` states, and progress
//! counters.  `solve` returns the minimum Hamiltonian-cycle cost together
//! with one optimal visiting order, reconstructed deterministically from the
//! memoized state costs.

pub mod model;
pub mod solver;
pub mod laws;
pub mod parse;

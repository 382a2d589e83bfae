//! Heuristics that compute multi-route solutions for a problem instance.

pub mod aco;
pub mod nearest_neighbor;

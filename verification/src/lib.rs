//! Core of a solver for the Vehicle Routing Problem with Time Windows
//! (VRPTW): an integer cost and feasibility model over locations and routes,
//! a nearest-neighbour construction heuristic, and an ant-colony search
//! engine with pheromone reinforcement, evaporation and stagnation resets.
//!
//! All quantities are integers: coordinates, demands and time windows are
//! `u16` values, distances are floor Euclidean distances, and pheromone
//! values and probabilities are fixed-point numbers scaled by `1_000_000`.

pub mod heuristics;
pub mod location;
pub mod rng;
pub mod vrp;
pub mod vrp_result;
pub mod route;

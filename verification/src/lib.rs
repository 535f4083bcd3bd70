//! Exact search for the shortest closed tour through a small set of points.
//!
//! The search is exhaustive: [`permutations`] lists every order in which `n`
//! points can be visited, [`tour_legs`] gives the legs of the round trip that
//! an order stands for, and a [`BestTour`] record keeps the shortest tour
//! offered to it. [`brute_force_tsp`] puts the three together.
//!
//! Lengths are not computed here. The caller measures a tour and hands in a
//! key for its length: an unsigned number that is smaller exactly when the
//! tour is shorter. The number of visiting orders grows as the factorial of
//! the number of points, so the search is meant for few points.

pub mod permutation;
pub mod record;
pub mod search;
pub mod tour;

pub use permutation::permutations;
pub use record::{select_shortest, BestTour};
pub use search::brute_force_tsp;
pub use tour::tour_legs;

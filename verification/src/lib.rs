//! A constraint-satisfaction engine for the Magnets puzzle.
//!
//! A rectangular grid is divided into domino-shaped slots. Each slot takes a
//! magnet with a positive and a negative pole, in one of two orientations, or
//! stays vacant. No two grid-adjacent cells may carry the same charge, and
//! every row and column asks for a number of positive and of negative cells.
//!
//! - [`csp`]: the model, with the engine state and its invariant
//! - [`layout`]: deriving the dominoes from the raw markers
//! - [`store`]: assigning and unassigning on the live board
//! - [`consistency`]: the check after each assignment
//! - [`arcs`]: the constraint arcs toward a domino
//! - [`revise`]: pruning one domain along one arc
//! - [`fc`], [`mac`]: the two propagators
//! - [`search`]: variable selection, value ordering and backtracking
//! - [`solution`]: what a solution is
//! - [`outcome`]: the search as a function of its inputs
//! - [`exhaustive`]: why the search discards no solution
//! - [`laws`]: what holds of every solution

pub mod arcs;
pub mod consistency;
pub mod csp;
pub mod exhaustive;
pub mod fc;
pub mod laws;
pub mod layout;
pub mod mac;
pub mod outcome;
pub mod revise;
pub mod search;
pub mod solution;
pub mod store;

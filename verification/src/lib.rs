//! Negative-cycle detection by Howard's policy iteration, and the minimum
//! parametric cycle ratio by Lawler's method, on weighted directed graphs.
//!
//! Graphs are `petgraph` directed graphs; potentials, weights and ratios are
//! exact rationals (`num::BigRational`). The algorithms are verified against
//! contracts stated over the number that each rational stands for and over the
//! adjacency lists of the graph.
//!
//! - [`neg_cycle`] holds `NegCycleFinder`: relaxation passes, the search of
//!   the predecessor policy for a cycle, and Howard's algorithm.
//! - [`parametric`] holds `ParametricAPI` and `MaxParametricSolver`: Lawler's
//!   iteration over a client's weights.
//! - [`min_cycle_ratio`] holds the client for costs and times, and a solver
//!   for the minimum cycle ratio that takes any input.
//! - [`potential`], [`policy`], [`relaxation`] and [`paths`] hold the
//!   mathematics that the contracts are stated in.
//! - [`digraph`] and [`rational`] hold what is taken on trust of `petgraph`
//!   and `num`.

pub mod digraph;
mod ledger;
pub mod logging;
pub mod min_cycle_ratio;
pub mod neg_cycle;
pub mod parametric;
pub mod paths;
pub mod policy;
pub mod potential;
pub mod rational;
pub mod relaxation;
mod search;

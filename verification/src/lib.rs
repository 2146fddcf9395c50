//! Exact travelling-salesman solver: the cheapest closed tour through every
//! node of a complete weighted graph, found by dynamic programming over
//! subsets of nodes.
//!
//! * [`solver`] holds the table of partial-tour costs and the two engines
//!   that fill it, one predecessor at a time or in batches of eight.
//! * [`tour`] says what the answer is, over sequences of nodes; [`recurrence`]
//!   gives the recurrence that the table follows and proves that it yields
//!   the least tour cost.
//! * [`protocol`] and [`text`] read an instance from text and write the
//!   answer line.
//! * [`laws`] holds what relates several of these parts.
//!
//! Costs are 32-bit unsigned numbers. Their sums clamp at the largest value,
//! which also stands for an edge that cannot be used.

pub mod cost;
pub mod lanes;
pub mod laws;
pub mod nodeset;
pub mod protocol;
pub mod recurrence;
pub mod solver;
pub mod text;
pub mod tour;

pub use protocol::{parse_matrix, parse_node_count, solve_tsp, try_solve_tsp, MalformedInput};
pub use solver::{DpSolver, Engine};

//! A constraint-propagation and backtracking solver for N x N Latin-square
//! puzzles (generalized sudoku: a square grid tiled by rectangular blocks).
//!
//! The grid is a flat array of [`node::Node`] cells, each either still open
//! (a set of candidate values) or determined (a value plus solve metadata).
//! [`state::State`] owns the grid and drives all mutation: assignments,
//! conflict bookkeeping, candidate recomputation, forced-single and
//! hidden-single deduction, and a guess-level-based backtracking search.
#![verifier::loop_isolation(false)]

pub mod chars;
pub mod coord;
pub mod finished;
pub mod node;
pub mod regions;
pub mod state;

//! Exact Connect-4 solver: bit-packed board, threat algebra, negamax search with
//! alpha-beta pruning, move ordering and a transposition table.
use vstd::prelude::*;

pub mod bitboard;
pub mod bits;
pub mod board;
pub mod evaluation;
pub mod move_sorter;
pub mod solver;
pub mod trans_table;

pub use board::{Board, Token};
pub use solver::Solver;

verus! {

/// Best score a search can return: a win with the first stone would score this.
pub const MAX_SCORE: i32 = 43;

/// Worst score a search can return.
pub const MIN_SCORE: i32 = -43;

} // verus!

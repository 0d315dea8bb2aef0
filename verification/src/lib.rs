//! A Connect Four engine on a packed bit-level board: legal moves, win
//! detection, a bounded-score transposition table and a negamax search with
//! alpha-beta pruning, each stated and proved against a mathematical model.

use vstd::prelude::*;

pub mod ai;
pub mod bits;
pub mod board;
pub mod cell;
pub mod lines;
pub mod transition_table;

verus! {

/// The strength the engine plays at, weakest first.
#[derive(Clone, Copy, Debug, PartialEq, Eq, Structural)]
pub enum AIType {
    Beginner,
    Easy,
    Medium,
    Hard,
    Impossible,
}

} // verus!

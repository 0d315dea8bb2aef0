//! The engines: a full-width search that defines what a position is worth,
//! the pruned search that plays, and a player that moves at random.

pub mod alpha_beta;
pub mod choice;
pub mod minimax;
pub mod random;

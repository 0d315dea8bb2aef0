use vstd::prelude::*;

verus! {

/// What one square of the grid holds.
#[derive(Clone, Copy, Debug, PartialEq, Eq, Structural)]
pub enum Cell {
    Empty,
    White,
    Red,
}

} // verus!

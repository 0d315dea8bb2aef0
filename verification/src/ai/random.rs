//! The player that moves at random, and the one source of chance that the
//! engines share.

use crate::board::Board;
use vstd::prelude::*;

verus! {

/// The largest range that `random_index` draws from.
pub const MAX_RANGE: usize = 0x10_0000;

/// A number below `n`, drawn from macroquad's generator, which is that of
/// the crate quad-rand, by `macroquad::rand::RandomRange::gen_range(0, n)`.
///
/// Believed, not proved: the draw lies below `n`. The generator takes a
/// 32-bit number, divides it by two to the power 32, multiplies the quotient
/// by `n` as a 64-bit float and drops the fraction; for `n` up to
/// `MAX_RANGE` every step of that is exact, so the result is less than `n`.
/// Which number comes is not said: two calls may differ.
#[verifier::external_body]
pub(crate) fn random_index(n: usize) -> (index: usize)
    requires
        0 < n <= MAX_RANGE,
    ensures
        index < n,
{
    macroquad::rand::RandomRange::gen_range(0, n)
}

/// Makes the `index`-th legal move, the moves counted from the middle out.
pub fn make_nth_move(board: &mut Board, index: usize)
    requires
        old(board).wf(),
        index < old(board).legal_moves().len(),
    ensures
        *final(board) == old(board).after_move(old(board).legal_moves()[index as int]),
        final(board).wf(),
{
    let boards = board.get_next_boards();
    proof {
        board.lemma_candidates(false);
        let col = board.legal_moves()[index as int];
        assert(board.keeps(col, false));
        board.lemma_after_move_wf(col);
    }
    *board = boards[index];
}

/// Makes a legal move chosen at random.
pub fn make_move(board: &mut Board)
    requires
        old(board).wf(),
        old(board).counter < 42,
    ensures
        exists|col: int| old(board).can_play(col) && *final(board) == old(board).after_move(col),
        final(board).wf(),
{
    let boards = board.get_next_boards();
    proof {
        board.lemma_room_to_move();
        board.lemma_candidates(false);
    }
    let i = random_index(boards.len());
    proof {
        let col = board.legal_moves()[i as int];
        assert(board.keeps(col, false));
    }
    make_nth_move(board, i);
}

} // verus!

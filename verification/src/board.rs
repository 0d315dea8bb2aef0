//! The position: two bit-sets, one per player, in a column-major layout with
//! one guard bit on top of every column.
//!
//! ```text
//!   6 13 20 27 34 41 48     guard row, never occupied
//! +---------------------+
//! | 5 12 19 26 33 40 47 |   top row
//! | 4 11 18 25 32 39 46 |
//! | 3 10 17 24 31 38 45 |
//! | 2  9 16 23 30 37 44 |
//! | 1  8 15 22 29 36 43 |
//! | 0  7 14 21 28 35 42 |   bottom row
//! +---------------------+
//! ```
//!
//! The model of a position is the grid of its squares, `Board::cell`; the
//! bit-sets, the heights and the counter are tied to it by `Board::wf`. What
//! holds of every position that play can produce is proved in `laws`.

use crate::bits::{
    bit, lemma_flip_bit, lemma_mask_test, lemma_or_and_bits, lemma_zero_has_no_bits,
    lemma_zero_iff_no_bits,
};
use crate::cell::Cell;
use crate::lines::{
    completes_four, completions, fold_runs, has_four, lemma_completions, lemma_fold_runs,
};
use vstd::prelude::*;

pub mod laws;

verus! {

pub const S_WIDTH: usize = 7;

pub const S_HEIGHT: usize = 6;

pub const U_WIDTH: u8 = 7;

pub const U_HEIGHT: u8 = 6;

pub const I_WIDTH: i8 = 7;

pub const I_HEIGHT: i8 = 6;

/// The columns in the order the search tries them: from the middle out.
pub const COLUMN_ORDER: [usize; 7] = [3, 4, 2, 5, 1, 6, 0];

/// The lowest score that play from the empty board can reach: what the
/// transposition table is biased by.
pub const MIN_SCORE: i8 = -18;

/// The bit that stands for the square in column `col`, row `row`.
pub open spec fn square(col: int, row: int) -> int {
    7 * col + row
}

/// The four ways a line can run: up a column, along a row, up a diagonal and
/// down a diagonal.
pub open spec fn is_direction(dcol: int, drow: int) -> bool {
    (dcol == 0 && drow == 1) || (dcol == 1 && (drow == 0 || drow == 1 || drow == -1))
}

/// Where column `col` stands in `COLUMN_ORDER`.
pub open spec fn place_in_order(col: int) -> int {
    if col == 3 {
        0
    } else if col == 4 {
        1
    } else if col == 2 {
        2
    } else if col == 5 {
        3
    } else if col == 1 {
        4
    } else if col == 6 {
        5
    } else {
        6
    }
}

/// The stone of the player with index `player`: the first player's is white.
pub open spec fn stone_of(player: int) -> Cell {
    if player == 0 {
        Cell::White
    } else {
        Cell::Red
    }
}

#[derive(Clone, Copy, Debug)]
pub struct Board {
    /// The stones of the two players: index 0 moves first.
    pub bit_board: [u64; 2],
    /// For each column, the bit of its lowest free square.
    pub height: [u8; 7],
    /// The number of moves played.
    pub counter: i8,
}

impl View for Board {
    type V = Seq<Seq<Cell>>;

    /// The grid: seven columns of six squares, each column from the bottom
    /// up.
    open spec fn view(&self) -> Seq<Seq<Cell>> {
        Seq::new(7, |col: int| Seq::new(6, |row: int| self.cell(col, row)))
    }
}

// The model.
impl Board {
    /// What the square in column `col`, row `row` holds.
    pub open spec fn cell(self, col: int, row: int) -> Cell {
        if bit(self.bit_board@[0], square(col, row)) {
            Cell::White
        } else if bit(self.bit_board@[1], square(col, row)) {
            Cell::Red
        } else {
            Cell::Empty
        }
    }

    /// The number of stones in column `col`.
    pub open spec fn fill(self, col: int) -> int {
        self.height@[col] - 7 * col
    }

    /// The number of stones on the board, column by column.
    pub open spec fn stones(self) -> int {
        self.fill(0) + self.fill(1) + self.fill(2) + self.fill(3) + self.fill(4) + self.fill(5)
            + self.fill(6)
    }

    /// The index in `bit_board` of the player to move.
    pub open spec fn mover(self) -> int {
        self.counter as int % 2
    }

    /// The stones of the player to move.
    pub open spec fn mine(self) -> u64 {
        self.bit_board@[self.mover()]
    }

    /// The stones of the player who moved last.
    pub open spec fn theirs(self) -> u64 {
        self.bit_board@[1 - self.mover()]
    }

    /// Every occupied square, whoever holds it.
    pub open spec fn occupied(self) -> u64 {
        self.bit_board@[0] | self.bit_board@[1]
    }

    /// No stone has been played.
    pub open spec fn is_empty(self) -> bool {
        &&& self.bit_board@ == seq![0u64, 0u64]
        &&& self.height@ == seq![0u8, 7u8, 14u8, 21u8, 28u8, 35u8, 42u8]
        &&& self.counter == 0
    }

    /// The position is one that play can produce: no square is held twice,
    /// every column is filled from the bottom up to its height and no
    /// further, nothing lies outside the grid, and the move counter is the
    /// number of stones on the board.
    pub open spec fn wf(self) -> bool {
        &&& forall|col: int| 0 <= col < 7 ==> 0 <= #[trigger] self.fill(col) <= 6
        &&& self.bit_board@[0] & self.bit_board@[1] == 0
        &&& forall|i: int|
            0 <= i < 64 ==> (#[trigger] bit(self.occupied(), i) <==> i < 49 && i % 7 < self.fill(
                i / 7,
            ))
        &&& self.counter == self.stones()
    }

    /// Column `col` exists and has room for one more stone.
    pub open spec fn can_play(self, col: int) -> bool {
        0 <= col < 7 && self.fill(col) < 6
    }

    /// Bit `i` is the lowest free square of a column that is not full.
    pub open spec fn is_playable(self, i: int) -> bool {
        0 <= i < 49 && i % 7 == self.fill(i / 7) && self.fill(i / 7) < 6
    }

    /// The position after the player to move drops a stone into column `col`.
    pub open spec fn after_move(self, col: int) -> Board {
        let stone = 1u64 << (self.height@[col] as u64);
        Board {
            bit_board: vstd::array::spec_array_update(
                self.bit_board,
                self.mover(),
                self.bit_board@[self.mover()] ^ stone,
            ),
            height: vstd::array::spec_array_update(
                self.height,
                col,
                (self.height@[col] + 1) as u8,
            ),
            counter: (self.counter + 1) as i8,
        }
    }

    /// The top stone of column `col` belongs to the player who moved last, so
    /// that the last move may have been into `col`.
    pub open spec fn can_undo(self, col: int) -> bool {
        0 <= col < 7 && self.fill(col) > 0 && bit(self.theirs(), self.height@[col] - 1)
    }

    /// The position before the player who moved last dropped a stone into
    /// column `col`.
    pub open spec fn before_move(self, col: int) -> Board {
        let stone = 1u64 << ((self.height@[col] - 1) as u64);
        Board {
            bit_board: vstd::array::spec_array_update(
                self.bit_board,
                1 - self.mover(),
                self.theirs() ^ stone,
            ),
            height: vstd::array::spec_array_update(
                self.height,
                col,
                (self.height@[col] - 1) as u8,
            ),
            counter: (self.counter - 1) as i8,
        }
    }

    /// Player `player` holds the square in column `col`, row `row`.
    pub open spec fn owns(self, player: int, col: int, row: int) -> bool {
        0 <= col < 7 && 0 <= row < 6 && bit(self.bit_board@[player], square(col, row))
    }

    /// Player `player` holds four squares in a line that starts in column
    /// `col`, row `row`, and goes on by `dcol` columns and `drow` rows a
    /// step.
    pub open spec fn line_of_four(
        self,
        player: int,
        col: int,
        row: int,
        dcol: int,
        drow: int,
    ) -> bool {
        self.owns(player, col, row) && self.owns(player, col + dcol, row + drow) && self.owns(
            player,
            col + 2 * dcol,
            row + 2 * drow,
        ) && self.owns(player, col + 3 * dcol, row + 3 * drow)
    }

    /// Player `player` has four in a row somewhere on the grid.
    pub open spec fn connects_four(self, player: int) -> bool {
        exists|col: int, row: int, dcol: int, drow: int|
            is_direction(dcol, drow) && #[trigger] self.line_of_four(player, col, row, dcol, drow)
    }

    /// Dropping a stone into column `col` is legal and completes four in a
    /// row for the player to move.
    pub open spec fn wins_by(self, col: int) -> bool {
        self.can_play(col) && completes_four(self.mine(), self.height@[col] as int)
    }

    /// The player to move has a move that wins at once.
    pub open spec fn can_win_next(self) -> bool {
        exists|col: int| #[trigger] self.wins_by(col)
    }

    /// The `k`-th column of the order is the first, from the middle out, by
    /// which the player to move wins at once.
    pub open spec fn is_first_win(self, k: int) -> bool {
        &&& 0 <= k < 7
        &&& self.wins_by(COLUMN_ORDER@[k] as int)
        &&& forall|j: int| 0 <= j < k ==> !self.wins_by(#[trigger] COLUMN_ORDER@[j] as int)
    }

    /// A move into column `col` is legal and does not lose at once: it wins,
    /// or it leaves the opponent without a winning reply.
    pub open spec fn is_safe(self, col: int) -> bool {
        self.can_play(col) && (self.wins_by(col) || !self.after_move(col).can_win_next())
    }

    /// Column `col` is a candidate: legal, and safe where only safe moves are
    /// asked for.
    pub open spec fn keeps(self, col: int, safe_only: bool) -> bool {
        self.can_play(col) && (safe_only ==> self.is_safe(col))
    }

    /// The candidate columns among the first `n` of `COLUMN_ORDER`, in that
    /// order.
    pub open spec fn moves_among(self, n: int, safe_only: bool) -> Seq<int>
        decreases n,
    {
        if n <= 0 {
            Seq::empty()
        } else {
            let rest = self.moves_among(n - 1, safe_only);
            let col = COLUMN_ORDER@[n - 1] as int;
            if self.keeps(col, safe_only) {
                rest.push(col)
            } else {
                rest
            }
        }
    }

    /// The legal moves, from the middle out.
    pub open spec fn legal_moves(self) -> Seq<int> {
        self.moves_among(7, false)
    }

    /// The legal moves that do not lose at once, from the middle out.
    pub open spec fn safe_moves(self) -> Seq<int> {
        self.moves_among(7, true)
    }

    /// The moves that a search tries: those that do not lose at once, or,
    /// where every move does, all that are legal.
    pub open spec fn candidate_moves(self) -> Seq<int> {
        if self.safe_moves().len() > 0 {
            self.safe_moves()
        } else {
            self.legal_moves()
        }
    }

    /// The positions that the moves `cols` lead to, in the same order.
    pub open spec fn positions_after(self, cols: Seq<int>) -> Seq<Board> {
        Seq::new(cols.len(), |k: int| self.after_move(cols[k]))
    }

    /// The fingerprint of the position: the stones of the player to move,
    /// added to the stones of both.
    pub open spec fn fingerprint(self) -> u64 {
        (self.mine() + self.occupied()) as u64
    }
}

// The operations.
impl Board {
    /// The empty board.
    pub fn new() -> (board: Board)
        ensures
            board.is_empty(),
            board.wf(),
    {
        let board = Board { bit_board: [0;2], height: [0, 7, 14, 21, 28, 35, 42], counter: 0 };
        proof {
            assert(board.bit_board@ =~= seq![0u64, 0u64]);
            assert(board.height@ =~= seq![0u8, 7u8, 14u8, 21u8, 28u8, 35u8, 42u8]);
            board.lemma_empty_wf();
        }
        board
    }

    /// Takes every stone off the board.
    pub fn reset(&mut self)
        ensures
            final(self).is_empty(),
            final(self).wf(),
    {
        self.bit_board[0] = 0;
        self.bit_board[1] = 0;
        self.height = [0, 7, 14, 21, 28, 35, 42];
        self.counter = 0;
        proof {
            assert(self.bit_board@ =~= seq![0u64, 0u64]);
            assert(self.height@ =~= seq![0u8, 7u8, 14u8, 21u8, 28u8, 35u8, 42u8]);
            self.lemma_empty_wf();
        }
    }

    /// Every position one legal move away that is not lost at once: the move
    /// wins, or the opponent has no winning reply to it. The positions stand
    /// first, the moves taken from the middle out, and `None` fills the rest.
    pub fn get_next_non_losing_boards(&self) -> (boards: [Option<Board>; 7])
        requires
            self.wf(),
        ensures
            forall|k: int|
                0 <= k < 7 ==> #[trigger] boards@[k] == (if k < self.safe_moves().len() {
                    Some(self.after_move(self.safe_moves()[k]))
                } else {
                    None
                }),
    {
        let mut boards: [Option<Board>; 7] = [None;7];
        let mut i: usize = 0;
        let wins = self.winning_moves();
        for n in 0..7usize
            invariant
                self.wf(),
                i <= n,
                i == self.moves_among(n as int, true).len(),
                forall|j: int| #[trigger]
                    bit(wins, j) == (self.is_playable(j) && completes_four(self.mine(), j)),
                forall|k: int|
                    0 <= k < 7 ==> #[trigger] boards@[k] == (if k < i {
                        Some(self.after_move(self.moves_among(n as int, true)[k]))
                    } else {
                        None
                    }),
        {
            let col = COLUMN_ORDER[n];
            let mut new_board = *self;
            let new_board_is_valid = new_board.make_move(col);
            if new_board_is_valid {
                let h = self.height[col];
                proof {
                    assert(0 <= self.fill(col as int) <= 6);
                    lemma_mask_test(wins, h as int);
                    assert(self.is_playable(h as int));
                }
                if wins & ((1_u64) << h) != 0 || new_board.winning_moves() == 0 {
                    boards[i] = Some(new_board);
                    i += 1;
                }
            }
        }
        boards
    }

    /// Every position one legal move away, the moves taken from the middle
    /// out.
    pub fn get_next_boards(&self) -> (boards: Vec<Board>)
        requires
            self.wf(),
        ensures
            boards@ == self.positions_after(self.legal_moves()),
    {
        let mut boards: Vec<Board> = Vec::new();
        for n in 0..7usize
            invariant
                self.wf(),
                boards@ == self.positions_after(self.moves_among(n as int, false)),
        {
            let column = COLUMN_ORDER[n];
            let mut new_board = *self;
            if new_board.make_move(column) {
                boards.push(new_board);
            }
        }
        boards
    }

    /// The columns that have room for a stone, from the middle out.
    pub fn legal_columns(&self) -> (cols: Vec<usize>)
        requires
            self.wf(),
        ensures
            cols@.len() == self.legal_moves().len(),
            forall|k: int| 0 <= k < cols@.len() ==> cols@[k] == self.legal_moves()[k],
    {
        let mut cols: Vec<usize> = Vec::new();
        for n in 0..7usize
            invariant
                self.wf(),
                cols@.len() == self.moves_among(n as int, false).len(),
                forall|k: int|
                    0 <= k < cols@.len() ==> cols@[k] == self.moves_among(n as int, false)[k],
        {
            let col = COLUMN_ORDER[n];
            assert(0 <= self.fill(col as int) <= 6);
            if self.height[col] < U_HEIGHT + (col as u8) * U_WIDTH {
                cols.push(col);
            }
        }
        cols
    }

    /// Whether the first player is to move.
    pub fn is_white_turn(&self) -> (white: bool)
        ensures
            white == (self.counter as int % 2 == 0),
    {
        self.counter % 2 == 0
    }

    /// Drops a stone for the player to move into column `col`, unless the
    /// column is full.
    pub fn make_move(&mut self, col: usize) -> (ok: bool)
        requires
            old(self).wf(),
            col < 7,
        ensures
            ok == old(self).can_play(col as int),
            ok ==> *final(self) == old(self).after_move(col as int),
            ok ==> final(self)@ == old(self)@.update(
                col as int,
                old(self)@[col as int].update(
                    old(self).fill(col as int),
                    stone_of(old(self).mover()),
                ),
            ),
            !ok ==> *final(self) == *old(self),
            final(self).wf(),
    {
        let h = self.height[col];
        if h >= U_HEIGHT + (col as u8) * U_WIDTH {
            return false;
        }
        proof {
            old(self).lemma_move_fills_square(col as int);
        }
        let move_pos = (1_u64) << h;
        let player: usize = if self.counter % 2 == 0 {
            0
        } else {
            1
        };
        proof {
            old(self).lemma_after_move_wf(col as int);
        }
        self.bit_board[player] = self.bit_board[player] ^ move_pos;
        self.height[col] = h + 1;
        self.counter = self.counter + 1;
        assert(self.bit_board =~= old(self).after_move(col as int).bit_board);
        assert(self.height =~= old(self).after_move(col as int).height);
        true
    }

    /// Takes back the move that the player who moved last made into column
    /// `col`: the counter first, then the height, then the stone.
    pub fn undo_move(&mut self, col: usize)
        requires
            old(self).wf(),
            old(self).can_undo(col as int),
        ensures
            *final(self) == old(self).before_move(col as int),
            final(self).wf(),
            final(self).can_play(col as int),
            final(self).after_move(col as int) == *old(self),
    {
        proof {
            old(self).lemma_before_move(col as int);
            assert(0 <= old(self).fill(col as int) <= 6);
        }
        self.counter = self.counter - 1;
        self.height[col] = self.height[col] - 1;
        let h = self.height[col];
        let player: usize = if self.counter % 2 == 0 {
            0
        } else {
            1
        };
        self.bit_board[player] = self.bit_board[player] ^ ((1_u64) << h);
        assert(self.bit_board =~= old(self).before_move(col as int).bit_board);
        assert(self.height =~= old(self).before_move(col as int).height);
    }

    /// Whether `bit_board` holds four in a row: up a column, along a row or
    /// along either diagonal.
    pub fn is_game_over(&self, bit_board: u64) -> (over: bool)
        ensures
            over == has_four(bit_board),
    {
        let diag_1 = bit_board & (bit_board >> 6);
        let diag_2 = bit_board & (bit_board >> 8);
        let horizontal = bit_board & (bit_board >> 7);
        let vertical = bit_board & (bit_board >> 1);
        proof {
            lemma_fold_runs(bit_board, 6);
            lemma_fold_runs(bit_board, 8);
            lemma_fold_runs(bit_board, 7);
            lemma_fold_runs(bit_board, 1);
            assert(diag_1 & (diag_1 >> 12) == fold_runs(bit_board, 6));
            assert(diag_2 & (diag_2 >> 16) == fold_runs(bit_board, 8));
            assert(horizontal & (horizontal >> 14) == fold_runs(bit_board, 7));
            assert(vertical & (vertical >> 2) == fold_runs(bit_board, 1));
        }
        diag_1 & (diag_1 >> 12) != 0 || diag_2 & (diag_2 >> 16) != 0 || horizontal & (horizontal
            >> 14) != 0 || vertical & (vertical >> 2) != 0
    }

    /// Whether the board is full.
    pub fn is_draw(&self) -> (draw: bool)
        ensures
            draw == (self.counter == 42),
    {
        self.counter == 42
    }

    /// A fingerprint of the position: the stones of the player to move, added
    /// to the stones of both.
    pub fn hash(&self) -> (key: u64)
        requires
            self.wf(),
        ensures
            key == self.fingerprint(),
            key == self.mine() + self.occupied(),
    {
        let index: usize = if self.counter % 2 == 0 {
            0
        } else {
            1
        };
        let index_2: usize = 1 - index;
        proof {
            self.lemma_within_grid();
            let (a, b) = (self.bit_board@[index as int], self.bit_board@[index_2 as int]);
            assert(a | b == b | a) by (bit_vector);
            assert((a | b) < 0x2_0000_0000_0000 ==> a < 0x2_0000_0000_0000) by (bit_vector);
        }
        self.bit_board[index] + (self.bit_board[index] | self.bit_board[index_2])
    }

    #[allow(dead_code)]
    fn moves(&self) -> (mask: u64)
        requires
            self.wf(),
        ensures
            forall|i: int| #[trigger] bit(mask, i) == self.is_playable(i),
    {
        self.possible()
    }

    /// The lowest free square of every column that is not full, as a bit-set.
    pub fn possible(&self) -> (p: u64)
        requires
            self.wf(),
        ensures
            forall|i: int| #[trigger] bit(p, i) == self.is_playable(i),
    {
        let mut p: u64 = 0;
        proof {
            lemma_zero_has_no_bits();
        }
        for col in 0..7usize
            invariant
                self.wf(),
                forall|i: int| #[trigger] bit(p, i) == (self.is_playable(i) && i / 7 < col),
        {
            let h = self.height[col];
            assert(0 <= self.fill(col as int) <= 6);
            if h < U_HEIGHT + (col as u8) * U_WIDTH {
                proof {
                    lemma_flip_bit(p, h as int);
                }
                p = p ^ ((1_u64) << h);
            }
        }
        p
    }

    /// The squares at which the player to move wins at once, as a bit-set.
    pub fn winning_moves(&self) -> (moves: u64)
        requires
            self.wf(),
        ensures
            forall|i: int| #[trigger]
                bit(moves, i) == (self.is_playable(i) && completes_four(self.mine(), i)),
            moves != 0 <==> self.can_win_next(),
    {
        let index: usize = if self.counter % 2 == 0 {
            0
        } else {
            1
        };
        let index_2: usize = 1 - index;
        let moves = self.compute_winning_positions(
            self.bit_board[index],
            self.bit_board[index_2],
        );
        let possible = self.possible();
        proof {
            let (a, b) = (self.bit_board@[index as int], self.bit_board@[index_2 as int]);
            assert(a | b == b | a) by (bit_vector);
            lemma_or_and_bits(moves, possible);
            lemma_zero_iff_no_bits(moves & possible);
            assert forall|i: int| self.is_playable(i) implies !bit(self.occupied(), i) by {}
            if moves & possible != 0 {
                let i = choose|i: int| bit(moves & possible, i);
                assert(self.wins_by(i / 7));
            }
            if self.can_win_next() {
                let col = choose|col: int| #[trigger] self.wins_by(col);
                let h = self.height@[col] as int;
                assert(0 <= self.fill(col) <= 6);
                assert(h / 7 == col && h % 7 == self.fill(col));
                assert(self.is_playable(h));
                assert(bit(moves, h) && bit(possible, h));
                assert(bit(moves & possible, h));
            }
        }
        moves & possible
    }

    /// The free squares, on or off the grid, at which `bit_board` would gain
    /// a line of four; `bit_board_opponent` holds the other player's stones.
    pub fn compute_winning_positions(&self, bit_board: u64, bit_board_opponent: u64) -> (r: u64)
        ensures
            forall|i: int| #[trigger]
                bit(r, i) == (0 <= i < 64 && !bit(bit_board | bit_board_opponent, i)
                    && completes_four(bit_board, i)),
    {
        // vertical
        let mut r = (bit_board << 1) & (bit_board << 2) & (bit_board << 3);

        // horizontal
        let mut p = (bit_board << U_WIDTH) & (bit_board << (2 * U_WIDTH));
        r = r | (p & (bit_board << (3 * U_WIDTH)));
        r = r | (p & (bit_board >> U_WIDTH));
        p = (bit_board >> U_WIDTH) & (bit_board >> (2 * U_WIDTH));
        r = r | (p & (bit_board << U_WIDTH));
        r = r | (p & (bit_board >> (3 * U_WIDTH)));

        // diagonal, falling to the right
        p = (bit_board << (U_WIDTH - 1)) & (bit_board << (2 * (U_WIDTH - 1)));
        r = r | (p & (bit_board << (3 * (U_WIDTH - 1))));
        r = r | (p & (bit_board >> (U_WIDTH - 1)));
        p = (bit_board >> (U_WIDTH - 1)) & (bit_board >> (2 * (U_WIDTH - 1)));
        r = r | (p & (bit_board << (U_WIDTH - 1)));
        r = r | (p & (bit_board >> (3 * (U_WIDTH - 1))));

        // diagonal, rising to the right
        p = (bit_board << (U_WIDTH + 1)) & (bit_board << (2 * (U_WIDTH + 1)));
        r = r | (p & (bit_board << (3 * (U_WIDTH + 1))));
        r = r | (p & (bit_board >> (U_WIDTH + 1)));
        p = (bit_board >> (U_WIDTH + 1)) & (bit_board >> (2 * (U_WIDTH + 1)));
        r = r | (p & (bit_board << (U_WIDTH + 1)));
        r = r | (p & (bit_board >> (3 * (U_WIDTH + 1))));

        proof {
            lemma_completions(bit_board, bit_board_opponent);
            assert(r & !(bit_board | bit_board_opponent) == completions(
                bit_board,
                bit_board_opponent,
            ));
        }
        r & !(bit_board | bit_board_opponent)
    }

    /// For every column, whether a stone dropped into it would let the
    /// opponent win with the next move.
    pub fn opponent_can_win_next(&self) -> (threats: [bool; 7])
        requires
            self.wf(),
        ensures
            forall|col: int|
                0 <= col < 7 ==> #[trigger] threats@[col] == (self.can_play(col) && self.after_move(
                    col,
                ).can_win_next()),
    {
        let mut threats = [false;7];
        for col in 0..7usize
            invariant
                self.wf(),
                forall|c: int|
                    0 <= c < col ==> #[trigger] threats@[c] == (self.can_play(c) && self.after_move(
                        c,
                    ).can_win_next()),
                forall|c: int| col <= c < 7 ==> !#[trigger] threats@[c],
        {
            let mut new_board = *self;
            if new_board.make_move(col) {
                threats[col] = new_board.winning_moves() != 0;
            }
        }
        threats
    }

    /// The position after the first move, from the middle out, that wins at
    /// once, if there is such a move.
    pub fn winning_board(&self) -> (won: Option<Board>)
        requires
            self.wf(),
        ensures
            won is Some <==> self.can_win_next(),
            won is Some ==> exists|k: int|
                self.is_first_win(k) && won->0 == self.after_move(
                    #[trigger] COLUMN_ORDER@[k] as int,
                ),
    {
        let wins = self.winning_moves();
        if wins == 0 {
            return None;
        }
        for n in 0..7usize
            invariant
                self.wf(),
                forall|j: int| #[trigger]
                    bit(wins, j) == (self.is_playable(j) && completes_four(self.mine(), j)),
                forall|j: int| 0 <= j < n ==> !self.wins_by(#[trigger] COLUMN_ORDER@[j] as int),
        {
            let col = COLUMN_ORDER[n];
            let h = self.height[col];
            proof {
                assert(0 <= self.fill(col as int) <= 6);
                lemma_mask_test(wins, h as int);
                assert(self.can_play(col as int) ==> self.is_playable(h as int));
                assert(self.is_playable(h as int) ==> self.can_play(col as int));
            }
            if wins & ((1_u64) << h) != 0 {
                let mut new_board = *self;
                new_board.make_move(col);
                assert(self.is_first_win(n as int));
                return Some(new_board);
            }
        }
        proof {
            let col = choose|col: int| #[trigger] self.wins_by(col);
            let j = place_in_order(col);
            assert(!self.wins_by(COLUMN_ORDER@[j] as int));
        }
        None
    }

    /// The grid as it is drawn: row by row from the top, each row from the
    /// left.
    pub fn get_cells(&self) -> (cells: [Cell; 42])
        ensures
            forall|col: int, row: int|
                0 <= col < 7 && 0 <= row < 6 ==> cells@[(5 - row) * 7 + col] == #[trigger] self.cell(
                    col,
                    row,
                ),
    {
        let mut board = [Cell::Empty;42];
        let mut i: usize = 0;
        let mut drawn: usize = 0;
        while drawn < 6
            invariant
                drawn <= 6,
                i == drawn * 7,
                forall|col: int, row: int|
                    0 <= col < 7 && 5 - drawn < row < 6 ==> board@[(5 - row) * 7 + col]
                        == #[trigger] self.cell(col, row),
            decreases 6 - drawn,
        {
            let row: usize = 5 - drawn;
            let mut col: usize = 0;
            while col < S_WIDTH
                invariant
                    drawn < 6,
                    row == 5 - drawn,
                    col <= 7,
                    i == drawn * 7 + col,
                    forall|c: int, r: int|
                        0 <= c < 7 && row < r < 6 ==> board@[(5 - r) * 7 + c] == #[trigger] self.cell(
                            c,
                            r,
                        ),
                    forall|c: int|
                        0 <= c < col ==> board@[(5 - row) * 7 + c] == #[trigger] self.cell(
                            c,
                            row as int,
                        ),
                decreases 7 - col,
            {
                let index: usize = row + col * S_WIDTH;
                proof {
                    lemma_mask_test(self.bit_board@[0], index as int);
                    lemma_mask_test(self.bit_board@[1], index as int);
                }
                if self.bit_board[0] & ((1_u64) << index) != 0 {
                    board[i] = Cell::White;
                } else if self.bit_board[1] & ((1_u64) << index) != 0 {
                    board[i] = Cell::Red;
                } else {
                    board[i] = Cell::Empty;
                }
                i += 1;
                col += 1;
            }
            drawn += 1;
        }
        board
    }
}

} // verus!

//! What holds of every position that play can produce: how a move changes
//! the grid and how taking it back restores it, that the counter counts the
//! stones, that four in a row in a bit-set is a line on the grid, that the
//! fingerprint tells positions apart, and which moves the filters keep.

use super::{is_direction, place_in_order, square, stone_of, Board, COLUMN_ORDER};
use crate::bits::{
    bit, count_below, count_bits, lemma_below_limit, lemma_count_disjoint, lemma_count_run,
    lemma_disjoint_iff, lemma_flip_bit, lemma_or_and_bits, lemma_rest_of_union,
    lemma_shift_up_one, lemma_zero_has_no_bits, lemma_zero_iff_no_bits,
};
use crate::cell::Cell;
use crate::lines::{
    bottom_row, completes_four, has_four, is_stride, lemma_grid_constants, lemma_line_gives_run,
    lemma_sum_tells_both, off_grid, run_of_four, stacked, three_below, three_in_line,
};
use vstd::prelude::*;

verus! {

// What play can produce.
impl Board {
    /// The empty board is a position that play can produce.
    pub proof fn lemma_empty_wf(self)
        requires
            self.is_empty(),
        ensures
            self.wf(),
    {
        lemma_zero_has_no_bits();
        assert(0u64 | 0u64 == 0u64) by (bit_vector);
        assert(0u64 & 0u64 == 0u64) by (bit_vector);
    }

    /// A legal move leaves a position that play can produce.
    pub proof fn lemma_after_move_wf(self, col: int)
        requires
            self.wf(),
            self.can_play(col),
        ensures
            self.after_move(col).wf(),
            self.after_move(col).counter == self.counter + 1,
            self.after_move(col).fill(col) == self.fill(col) + 1,
            forall|c: int| 0 <= c < 7 && c != col ==> self.after_move(col).fill(c) == self.fill(c),
    {
        let next = self.after_move(col);
        let h = self.height@[col] as int;
        let p = self.mover();
        let (old0, old1) = (self.bit_board@[0], self.bit_board@[1]);
        let (new0, new1) = (next.bit_board@[0], next.bit_board@[1]);
        assert(h == square(col, self.fill(col)));
        assert(!bit(self.occupied(), h));
        lemma_or_and_bits(old0, old1);
        lemma_or_and_bits(new0, new1);
        lemma_disjoint_iff(old0, old1);
        lemma_flip_bit(self.bit_board@[p], h);
        assert(next.height@[col] == h + 1);
        assert forall|c: int| 0 <= c < 7 implies 0 <= #[trigger] next.fill(c) <= 6 by {
            assert(0 <= self.fill(c) <= 6);
        }
        assert forall|i: int| !(#[trigger] bit(new0, i) && bit(new1, i)) by {
            assert(!(bit(old0, i) && bit(old1, i)));
        }
        lemma_disjoint_iff(new0, new1);
        assert forall|i: int| 0 <= i < 64 implies (#[trigger] bit(next.occupied(), i) <==> i < 49
            && i % 7 < next.fill(i / 7)) by {
            assert(bit(self.occupied(), i) <==> i < 49 && i % 7 < self.fill(i / 7));
            assert(bit(next.occupied(), i) == (bit(self.occupied(), i) || i == h));
            if i < 49 {
                assert(0 <= self.fill(i / 7) <= 6);
            }
        }
    }

    /// Taking back a move that may have been the last leaves a position that
    /// play can produce, and making the move again leads back.
    pub proof fn lemma_before_move(self, col: int)
        requires
            self.wf(),
            self.can_undo(col),
        ensures
            self.before_move(col).wf(),
            self.before_move(col).can_play(col),
            self.before_move(col).after_move(col) == self,
    {
        let prev = self.before_move(col);
        let h = self.height@[col] - 1;
        let q = 1 - self.mover();
        let (old0, old1) = (self.bit_board@[0], self.bit_board@[1]);
        let (new0, new1) = (prev.bit_board@[0], prev.bit_board@[1]);
        assert(0 <= self.fill(col) <= 6);
        assert(h == square(col, self.fill(col) - 1));
        assert(prev.mover() == q);
        lemma_or_and_bits(old0, old1);
        lemma_or_and_bits(new0, new1);
        lemma_disjoint_iff(old0, old1);
        lemma_flip_bit(self.bit_board@[q], h);
        lemma_flip_bit(prev.bit_board@[q], h);
        assert forall|c: int| 0 <= c < 7 implies 0 <= #[trigger] prev.fill(c) <= 6 by {
            assert(0 <= self.fill(c) <= 6);
        }
        assert forall|i: int| !(#[trigger] bit(new0, i) && bit(new1, i)) by {
            assert(!(bit(old0, i) && bit(old1, i)));
        }
        lemma_disjoint_iff(new0, new1);
        assert forall|i: int| 0 <= i < 64 implies (#[trigger] bit(prev.occupied(), i) <==> i < 49
            && i % 7 < prev.fill(i / 7)) by {
            assert(bit(self.occupied(), i) <==> i < 49 && i % 7 < self.fill(i / 7));
            assert(bit(self.occupied(), h));
            assert(bit(prev.occupied(), i) == (bit(self.occupied(), i) && i != h));
            if i < 49 {
                assert(0 <= self.fill(i / 7) <= 6);
            }
        }
        let stone = 1u64 << (h as u64);
        let x = self.bit_board@[q];
        assert((x ^ stone) ^ stone == x) by (bit_vector);
        assert(prev.after_move(col).bit_board =~= self.bit_board);
        assert(prev.after_move(col).height =~= self.height);
    }

    /// No more stones are on the board than it has squares.
    pub proof fn lemma_counter_in_range(self)
        requires
            self.wf(),
        ensures
            0 <= self.counter <= 42,
    {
        assert(0 <= self.fill(0) <= 6 && 0 <= self.fill(1) <= 6 && 0 <= self.fill(2) <= 6 && 0
            <= self.fill(3) <= 6 && 0 <= self.fill(4) <= 6 && 0 <= self.fill(5) <= 6 && 0
            <= self.fill(6) <= 6);
    }

    /// Where a move is legal, the board is not full.
    pub proof fn lemma_counter_below_full(self, col: int)
        requires
            self.wf(),
            self.can_play(col),
        ensures
            self.counter < 42,
    {
        assert(0 <= self.fill(0) <= 6 && 0 <= self.fill(1) <= 6 && 0 <= self.fill(2) <= 6 && 0
            <= self.fill(3) <= 6 && 0 <= self.fill(4) <= 6 && 0 <= self.fill(5) <= 6 && 0
            <= self.fill(6) <= 6);
    }

    /// While the board is not full, some move is legal.
    pub proof fn lemma_room_to_move(self)
        requires
            self.wf(),
            self.counter < 42,
        ensures
            exists|col: int| self.can_play(col),
            self.legal_moves().len() > 0,
    {
        self.lemma_candidates(false);
        assert(0 <= self.fill(0) <= 6 && 0 <= self.fill(1) <= 6 && 0 <= self.fill(2) <= 6 && 0
            <= self.fill(3) <= 6 && 0 <= self.fill(4) <= 6 && 0 <= self.fill(5) <= 6 && 0
            <= self.fill(6) <= 6);
        let col: int = if self.fill(0) < 6 {
            0
        } else if self.fill(1) < 6 {
            1
        } else if self.fill(2) < 6 {
            2
        } else if self.fill(3) < 6 {
            3
        } else if self.fill(4) < 6 {
            4
        } else if self.fill(5) < 6 {
            5
        } else {
            6
        };
        assert(self.can_play(col));
        assert(self.keeps(col, false));
    }

    /// Every stone stands on a square of the grid.
    pub proof fn lemma_on_grid(self, i: int)
        requires
            self.wf(),
        ensures
            bit(self.occupied(), i) ==> 0 <= i < 49 && 0 <= i % 7 < 6 && 0 <= i / 7 < 7,
    {
        if bit(self.occupied(), i) {
            assert(0 <= self.fill(i / 7) <= 6);
        }
    }

    /// No stone lies beyond the grid's 49 bits.
    pub proof fn lemma_within_grid(self)
        requires
            self.wf(),
        ensures
            self.occupied() < 0x2_0000_0000_0000,
    {
        lemma_below_limit(self.occupied(), 49);
        assert(1u64 << 49 == 0x2_0000_0000_0000) by (bit_vector);
    }

    /// A column is filled from the bottom up with no gap: a square holds a
    /// stone exactly when it lies below the height of its column.
    pub proof fn lemma_cells_stack(self, col: int, row: int)
        requires
            self.wf(),
            0 <= col < 7,
            0 <= row < 6,
        ensures
            self.cell(col, row) != Cell::Empty <==> row < self.fill(col),
    {
        let i = square(col, row);
        lemma_or_and_bits(self.bit_board@[0], self.bit_board@[1]);
        assert(bit(self.occupied(), i) <==> i < 49 && i % 7 < self.fill(i / 7));
        assert(i / 7 == col && i % 7 == row);
    }
}

// Moves and their inverse.
impl Board {
    /// A legal move puts the mover's stone on the lowest free square of its
    /// column and leaves every other square as it was.
    pub proof fn lemma_move_fills_square(self, col: int)
        requires
            self.wf(),
            self.can_play(col),
        ensures
            forall|c: int, r: int|
                0 <= c < 7 && 0 <= r < 6 ==> #[trigger] self.after_move(col).cell(c, r) == (if c
                    == col && r == self.fill(col) {
                    stone_of(self.mover())
                } else {
                    self.cell(c, r)
                }),
            self.after_move(col)@ == self@.update(
                col,
                self@[col].update(self.fill(col), stone_of(self.mover())),
            ),
    {
        let next = self.after_move(col);
        let h = self.height@[col] as int;
        let p = self.mover();
        assert(0 <= self.fill(col) <= 6);
        assert(h == square(col, self.fill(col)));
        lemma_or_and_bits(self.bit_board@[0], self.bit_board@[1]);
        assert(!bit(self.occupied(), h));
        lemma_flip_bit(self.bit_board@[p], h);
        assert forall|c: int, r: int| 0 <= c < 7 && 0 <= r < 6 implies #[trigger] next.cell(c, r)
            == (if c == col && r == self.fill(col) {
            stone_of(p)
        } else {
            self.cell(c, r)
        }) by {
            let i = square(c, r);
            assert(i == h <==> c == col && r == self.fill(col));
            assert(bit(next.bit_board@[p], i) == (bit(self.bit_board@[p], i) || i == h));
            assert(next.bit_board@[1 - p] == self.bit_board@[1 - p]);
        }
        let grid = self@.update(col, self@[col].update(self.fill(col), stone_of(p)));
        assert forall|c: int| 0 <= c < 7 implies #[trigger] next@[c] =~= grid[c] by {
            assert forall|r: int| 0 <= r < 6 implies next@[c][r] == grid[c][r] by {
                assert(next@[c][r] == next.cell(c, r));
                assert(self@[c][r] == self.cell(c, r));
            }
        }
        assert(next@ =~= grid);
    }

    /// Making a legal move and taking it back at once restores the position:
    /// both bit-sets, every height and the move counter.
    pub proof fn lemma_move_then_undo(self, col: int)
        requires
            self.wf(),
            self.can_play(col),
        ensures
            self.after_move(col).can_undo(col),
            self.after_move(col).before_move(col) == self,
    {
        let next = self.after_move(col);
        let h = self.height@[col] as int;
        self.lemma_after_move_wf(col);
        assert(0 <= self.fill(col) <= 6);
        lemma_flip_bit(self.mine(), h);
        let stone = 1u64 << (h as u64);
        let x = self.mine();
        assert(next.mover() == 1 - self.mover());
        assert(next.theirs() == x ^ stone);
        assert(next.height@[col] - 1 == h);
        assert(!bit(self.occupied(), h));
        lemma_or_and_bits(self.bit_board@[0], self.bit_board@[1]);
        assert(bit(next.theirs(), h));
        assert((x ^ stone) ^ stone == x) by (bit_vector);
        assert(next.before_move(col).bit_board =~= self.bit_board);
        assert(next.before_move(col).height =~= self.height);
    }
}

// The counter and the stones.
impl Board {
    /// The number of stones in the columns left of column `n`.
    pub open spec fn stones_left_of(self, n: int) -> int
        decreases n,
    {
        if n <= 0 {
            0
        } else {
            self.stones_left_of(n - 1) + self.fill(n - 1)
        }
    }

    /// The occupied squares left of column `n` are as many as the stones
    /// there.
    proof fn lemma_count_columns(self, n: int)
        requires
            self.wf(),
            0 <= n <= 7,
        ensures
            count_below(self.occupied(), (7 * n) as nat) == self.stones_left_of(n),
            n == 7 ==> self.stones_left_of(n) == self.stones(),
        decreases n,
    {
        if n > 0 {
            self.lemma_count_columns(n - 1);
            let occ = self.occupied();
            let base = (7 * (n - 1)) as nat;
            assert(0 <= self.fill(n - 1) <= 6);
            assert forall|i: int| base <= i < base + 7 implies (#[trigger] bit(occ, i) <==> i
                < base + self.fill(n - 1)) by {
                assert(i / 7 == n - 1);
            }
            lemma_count_run(occ, base, self.fill(n - 1) as nat, 7);
        }
        if n == 7 {
            reveal_with_fuel(Board::stones_left_of, 8);
        }
    }

    /// The move counter is the number of set bits of the two bit-sets
    /// together.
    pub proof fn lemma_counter_counts_stones(self)
        requires
            self.wf(),
        ensures
            count_bits(self.bit_board@[0]) + count_bits(self.bit_board@[1]) == self.counter,
    {
        let occ = self.occupied();
        lemma_count_disjoint(self.bit_board@[0], self.bit_board@[1]);
        self.lemma_count_columns(7);
        assert forall|i: int| 49 <= i < 49 + 15 implies (#[trigger] bit(occ, i) <==> i < 49 + 0) by {}
        lemma_count_run(occ, 49, 0, 15);
    }
}

// Four in a row.
impl Board {
    /// Four in a row in a player's bit-set is four of that player's squares
    /// in a line on the grid, in one of the four directions, and the other
    /// way round: no run of set bits counts that is not such a line.
    pub proof fn lemma_four_is_a_line(self, player: int)
        requires
            self.wf(),
            0 <= player <= 1,
        ensures
            has_four(self.bit_board@[player]) <==> self.connects_four(player),
    {
        let x = self.bit_board@[player];
        lemma_or_and_bits(self.bit_board@[0], self.bit_board@[1]);
        if has_four(x) {
            let (start, stride) = choose|start: int, stride: int|
                is_stride(stride) && #[trigger] run_of_four(x, start, stride);
            self.lemma_on_grid(start);
            self.lemma_on_grid(start + stride);
            self.lemma_on_grid(start + 2 * stride);
            self.lemma_on_grid(start + 3 * stride);
            let (col, row) = (start / 7, start % 7);
            let dcol: int = if stride == 1 {
                0
            } else {
                1
            };
            let drow = stride - 7 * dcol;
            assert(square(col, row) == start);
            assert(square(col + dcol, row + drow) == start + stride);
            assert(square(col + 2 * dcol, row + 2 * drow) == start + 2 * stride);
            assert(square(col + 3 * dcol, row + 3 * drow) == start + 3 * stride);
            assert(self.line_of_four(player, col, row, dcol, drow));
        }
        if self.connects_four(player) {
            let (col, row, dcol, drow) = choose|col: int, row: int, dcol: int, drow: int|
                is_direction(dcol, drow) && #[trigger] self.line_of_four(
                    player,
                    col,
                    row,
                    dcol,
                    drow,
                );
            let stride = 7 * dcol + drow;
            assert(square(col + dcol, row + drow) == square(col, row) + stride);
            assert(square(col + 2 * dcol, row + 2 * drow) == square(col, row) + 2 * stride);
            assert(square(col + 3 * dcol, row + 3 * drow) == square(col, row) + 3 * stride);
            assert(run_of_four(x, square(col, row), stride));
        }
    }

    /// After a legal move the mover has four in a row exactly when the mover
    /// had it before or the move completes it.
    pub proof fn lemma_win_gives_four(self, col: int)
        requires
            self.wf(),
            self.can_play(col),
        ensures
            self.after_move(col).theirs() == self.mine() ^ (1u64 << (self.height@[col] as u64)),
            has_four(self.after_move(col).theirs()) <==> has_four(self.mine()) || self.wins_by(col),
    {
        let next = self.after_move(col);
        let h = self.height@[col] as int;
        let x = self.mine();
        let y = x ^ (1u64 << (h as u64));
        self.lemma_after_move_wf(col);
        assert(0 <= self.fill(col) <= 6);
        assert(next.mover() == 1 - self.mover());
        assert(next.theirs() == y);
        lemma_flip_bit(x, h);
        lemma_or_and_bits(self.bit_board@[0], self.bit_board@[1]);
        assert(!bit(self.occupied(), h));
        assert(!bit(self.occupied(), h + 1)) by {
            assert((h + 1) / 7 == col && (h + 1) % 7 == self.fill(col) + 1);
        }
        assert(!bit(x, h) && !bit(x, h + 1));
        if has_four(x) {
            let (start, stride) = choose|start: int, stride: int|
                is_stride(stride) && #[trigger] run_of_four(x, start, stride);
            assert(run_of_four(y, start, stride));
        }
        if three_below(x, h) {
            assert(run_of_four(y, h - 3, 1));
        }
        lemma_line_gives_run(x, y, h, 7);
        lemma_line_gives_run(x, y, h, 6);
        lemma_line_gives_run(x, y, h, 8);
        if has_four(y) && !has_four(x) {
            let (start, stride) = choose|start: int, stride: int|
                is_stride(stride) && #[trigger] run_of_four(y, start, stride);
            assert(!run_of_four(x, start, stride));
            if h == start {
                assert(stride != 1);
                assert(three_in_line(x, h, stride));
            } else if h == start + stride {
                assert(stride != 1);
                assert(three_in_line(x, h, stride));
            } else if h == start + 2 * stride {
                assert(stride != 1);
                assert(three_in_line(x, h, stride));
            } else {
                assert(h == start + 3 * stride);
                if stride == 1 {
                    assert(three_below(x, h));
                } else {
                    assert(three_in_line(x, h, stride));
                }
            }
            assert(completes_four(x, h));
        }
    }
}

// The fingerprint.
impl Board {
    /// The stones stand on the grid, each on the bottom row or on another.
    pub proof fn lemma_stacked(self)
        requires
            self.wf(),
        ensures
            stacked(self.occupied()),
    {
        let occ = self.occupied();
        lemma_grid_constants();
        lemma_shift_up_one(occ);
        lemma_or_and_bits(occ, off_grid());
        lemma_or_and_bits(occ, !bottom_row());
        lemma_or_and_bits(bottom_row(), bottom_row());
        lemma_or_and_bits(occ << 1, occ << 1);
        lemma_or_and_bits(occ & !bottom_row(), !(occ << 1));
        lemma_zero_iff_no_bits(occ & off_grid());
        lemma_zero_iff_no_bits(occ & !bottom_row() & !(occ << 1));
        assert forall|i: int| !#[trigger] bit(occ & off_grid(), i) by {
            self.lemma_on_grid(i);
        }
        assert forall|i: int| !#[trigger] bit(occ & !bottom_row() & !(occ << 1), i) by {
            self.lemma_on_grid(i);
            if bit(occ, i) && i % 7 != 0 {
                assert((i - 1) / 7 == i / 7);
                assert(bit(occ, i - 1));
            }
        }
    }

    /// Two positions with one fingerprint are one position: a look-up by
    /// fingerprint never mistakes one for another.
    pub proof fn lemma_fingerprint_tells_position(self, other: Board)
        requires
            self.wf(),
            other.wf(),
            self.fingerprint() == other.fingerprint(),
        ensures
            self == other,
    {
        self.lemma_stacked();
        other.lemma_stacked();
        self.lemma_within_grid();
        other.lemma_within_grid();
        let (p, q) = (self.mover(), other.mover());
        assert(self.mine() <= self.occupied() && other.mine() <= other.occupied()) by {
            let (a, b) = (self.bit_board@[0], self.bit_board@[1]);
            let (c, d) = (other.bit_board@[0], other.bit_board@[1]);
            assert(a <= a | b && b <= a | b && c <= c | d && d <= c | d) by (bit_vector);
        }
        assert(self.bit_board@[p] & self.bit_board@[1 - p] == 0 && self.bit_board@[p]
            | self.bit_board@[1 - p] == self.occupied()) by {
            let (a, b) = (self.bit_board@[0], self.bit_board@[1]);
            assert(a & b == b & a && a | b == b | a) by (bit_vector);
        }
        assert(other.bit_board@[q] & other.bit_board@[1 - q] == 0 && other.bit_board@[q]
            | other.bit_board@[1 - q] == other.occupied()) by {
            let (a, b) = (other.bit_board@[0], other.bit_board@[1]);
            assert(a & b == b & a && a | b == b | a) by (bit_vector);
        }
        lemma_rest_of_union(self.mine(), self.theirs());
        lemma_rest_of_union(other.mine(), other.theirs());
        lemma_sum_tells_both(self.mine(), self.occupied(), other.mine(), other.occupied());
        self.lemma_counter_counts_stones();
        other.lemma_counter_counts_stones();
        lemma_count_disjoint(self.bit_board@[0], self.bit_board@[1]);
        lemma_count_disjoint(other.bit_board@[0], other.bit_board@[1]);
        assert(self.counter == other.counter);
        assert(self.bit_board =~= other.bit_board);
        assert forall|col: int| 0 <= col < 7 implies self.height@[col] == other.height@[col] by {
            let (f, g) = (self.fill(col), other.fill(col));
            assert(0 <= f <= 6 && 0 <= g <= 6);
            if f < g {
                assert(bit(other.occupied(), square(col, f)));
                assert(!bit(self.occupied(), square(col, f)));
            }
            if g < f {
                assert(bit(self.occupied(), square(col, g)));
                assert(!bit(other.occupied(), square(col, g)));
            }
        }
        assert(self.height =~= other.height);
    }
}

// The moves that a search tries.
impl Board {
    /// Every candidate is a column that is kept, and every column that is
    /// kept among the first `n` of the order is a candidate.
    pub proof fn lemma_moves_among(self, n: int, safe_only: bool)
        requires
            0 <= n <= 7,
        ensures
            self.moves_among(n, safe_only).len() <= n,
            forall|k: int|
                0 <= k < self.moves_among(n, safe_only).len() ==> self.keeps(
                    #[trigger] self.moves_among(n, safe_only)[k],
                    safe_only,
                ),
            forall|j: int|
                0 <= j < n && self.keeps(#[trigger] COLUMN_ORDER@[j] as int, safe_only)
                    ==> self.moves_among(n, safe_only).contains(COLUMN_ORDER@[j] as int),
        decreases n,
    {
        if n > 0 {
            self.lemma_moves_among(n - 1, safe_only);
            let rest = self.moves_among(n - 1, safe_only);
            let all = self.moves_among(n, safe_only);
            let col = COLUMN_ORDER@[n - 1] as int;
            assert forall|j: int|
                0 <= j < n && self.keeps(
                    #[trigger] COLUMN_ORDER@[j] as int,
                    safe_only,
                ) implies all.contains(COLUMN_ORDER@[j] as int) by {
                if j < n - 1 {
                    let k = choose|k: int| 0 <= k < rest.len() && rest[k] == COLUMN_ORDER@[j] as int;
                    assert(all[k] == COLUMN_ORDER@[j] as int);
                } else {
                    assert(all[all.len() - 1] == col);
                }
            }
        }
    }

    /// The candidates are exactly the columns that are kept.
    pub proof fn lemma_candidates(self, safe_only: bool)
        ensures
            self.moves_among(7, safe_only).len() <= 7,
            forall|k: int|
                0 <= k < self.moves_among(7, safe_only).len() ==> self.keeps(
                    #[trigger] self.moves_among(7, safe_only)[k],
                    safe_only,
                ),
            forall|col: int| #[trigger]
                self.keeps(col, safe_only) ==> self.moves_among(7, safe_only).contains(col),
    {
        self.lemma_moves_among(7, safe_only);
        assert forall|col: int| #[trigger] self.keeps(col, safe_only) implies self.moves_among(
            7,
            safe_only,
        ).contains(col) by {
            let j = place_in_order(col);
            assert(COLUMN_ORDER@[j] == col);
        }
    }

    /// The filter keeps no move that lets the opponent win with the next
    /// move, unless the move itself wins; and it keeps some move whenever
    /// there is one to keep.
    pub proof fn lemma_safe_moves(self)
        ensures
            forall|k: int|
                0 <= k < self.safe_moves().len() ==> self.is_safe(#[trigger] self.safe_moves()[k]),
            forall|k: int|
                0 <= k < self.safe_moves().len() && !self.wins_by(self.safe_moves()[k])
                    ==> !(#[trigger] self.after_move(self.safe_moves()[k])).can_win_next(),
            (exists|col: int| self.is_safe(col)) ==> self.safe_moves().len() > 0,
    {
        self.lemma_candidates(true);
        if exists|col: int| self.is_safe(col) {
            let col = choose|col: int| self.is_safe(col);
            assert(self.keeps(col, true));
        }
    }
}

} // verus!

//! Lines of four in a 64-bit word, and the grid that the words are read on:
//! columns of seven bits, six squares and a guard, so that bits one, six,
//! seven and eight apart are neighbours up a column, down a diagonal, along
//! a row and up a diagonal.

use crate::bits::{bit, lemma_or_and_bits, lemma_zero_iff_no_bits};
use vstd::prelude::*;

verus! {

/// The distance between neighbouring bits of a line: 1 up a column, 7 along
/// a row, 6 and 8 along the two diagonals.
pub open spec fn is_stride(stride: int) -> bool {
    stride == 1 || stride == 6 || stride == 7 || stride == 8
}

/// Four set bits of `x`, `stride` apart, the lowest at `start`.
pub open spec fn run_of_four(x: u64, start: int, stride: int) -> bool {
    bit(x, start) && bit(x, start + stride) && bit(x, start + 2 * stride) && bit(
        x,
        start + 3 * stride,
    )
}

/// Some line of four set bits lies in `x`.
pub open spec fn has_four(x: u64) -> bool {
    exists|start: int, stride: int| is_stride(stride) && #[trigger] run_of_four(x, start, stride)
}

/// What folding a word onto itself twice leaves: the starts of its runs.
pub open spec fn fold_runs(x: u64, stride: u64) -> u64 {
    let pairs = x & (x >> stride);
    pairs & (pairs >> ((2 * stride) as u64))
}

proof fn lemma_fold_bit(x: u64, s: u64, i: u64)
    by (bit_vector)
    requires
        i < 64,
        1 <= s <= 8,
    ensures
        ({
            let pairs = x & (x >> s);
            let t = pairs & (pairs >> ((2 * s) as u64));
            (t >> i) & 1 == 1 <==> (x >> i) & 1 == 1 && (i + s < 64 && (x >> ((i + s) as u64)) & 1
                == 1) && (i + 2 * s < 64 && (x >> ((i + 2 * s) as u64)) & 1 == 1) && (i + 3 * s
                < 64 && (x >> ((i + 3 * s) as u64)) & 1 == 1)
        }),
{
}

/// Bit `i` survives the folding exactly when a run starts at `i`.
pub proof fn lemma_fold_runs(x: u64, stride: int)
    requires
        1 <= stride <= 8,
    ensures
        forall|i: int| #[trigger] bit(fold_runs(x, stride as u64), i) == run_of_four(x, i, stride),
        fold_runs(x, stride as u64) != 0 <==> exists|i: int| #[trigger] run_of_four(x, i, stride),
{
    let t = fold_runs(x, stride as u64);
    assert forall|i: int| #[trigger] bit(t, i) == run_of_four(x, i, stride) by {
        if 0 <= i < 64 {
            lemma_fold_bit(x, stride as u64, i as u64);
        }
    }
    lemma_zero_iff_no_bits(t);
    if t != 0 {
        let i = choose|i: int| bit(t, i);
        assert(run_of_four(x, i, stride));
    }
    if exists|i: int| #[trigger] run_of_four(x, i, stride) {
        let i = choose|i: int| #[trigger] run_of_four(x, i, stride);
        assert(bit(t, i));
    }
}

/// The three bits just below `i` are set: a stone at `i` would top a column
/// of four.
pub open spec fn three_below(x: u64, i: int) -> bool {
    bit(x, i - 1) && bit(x, i - 2) && bit(x, i - 3)
}

/// Three set bits of `x` lie with `i` on one line of four, `stride` apart,
/// wherever on that line `i` stands.
pub open spec fn three_in_line(x: u64, i: int, stride: int) -> bool {
    ||| bit(x, i - stride) && bit(x, i - 2 * stride) && bit(x, i - 3 * stride)
    ||| bit(x, i + stride) && bit(x, i - stride) && bit(x, i - 2 * stride)
    ||| bit(x, i + 2 * stride) && bit(x, i + stride) && bit(x, i - stride)
    ||| bit(x, i + stride) && bit(x, i + 2 * stride) && bit(x, i + 3 * stride)
}

/// A stone at `i` would complete a line of four in `x`: on top of a column,
/// or anywhere on a row or a diagonal.
pub open spec fn completes_four(x: u64, i: int) -> bool {
    three_below(x, i) || three_in_line(x, i, 7) || three_in_line(x, i, 6) || three_in_line(x, i, 8)
}

/// Where three bits of `x` lie in line with `h`, the word that has bit `h`
/// besides holds a line of four.
pub proof fn lemma_line_gives_run(x: u64, y: u64, h: int, stride: int)
    requires
        is_stride(stride),
        forall|i: int| bit(x, i) ==> #[trigger] bit(y, i),
        bit(y, h),
    ensures
        three_in_line(x, h, stride) ==> has_four(y),
{
    if bit(x, h - stride) && bit(x, h - 2 * stride) && bit(x, h - 3 * stride) {
        assert(run_of_four(y, h - 3 * stride, stride));
    } else if bit(x, h + stride) && bit(x, h - stride) && bit(x, h - 2 * stride) {
        assert(run_of_four(y, h - 2 * stride, stride));
    } else if bit(x, h + 2 * stride) && bit(x, h + stride) && bit(x, h - stride) {
        assert(run_of_four(y, h - stride, stride));
    } else if bit(x, h + stride) && bit(x, h + 2 * stride) && bit(x, h + 3 * stride) {
        assert(run_of_four(y, h, stride));
    }
}

/// The free positions at which one more bit would complete a line of four in
/// `x`, where `other` holds the positions that are taken besides those of `x`.
pub open spec fn completions(x: u64, other: u64) -> u64 {
    let vertical = (x << 1) & (x << 2) & (x << 3);
    let row_below = (x << 7) & (x << 14);
    let row_above = (x >> 7) & (x >> 14);
    let down_below = (x << 6) & (x << 12);
    let down_above = (x >> 6) & (x >> 12);
    let up_below = (x << 8) & (x << 16);
    let up_above = (x >> 8) & (x >> 16);
    (vertical | (row_below & (x << 21)) | (row_below & (x >> 7)) | (row_above & (x << 7)) | (
    row_above & (x >> 21)) | (down_below & (x << 18)) | (down_below & (x >> 6)) | (down_above & (x
        << 6)) | (down_above & (x >> 18)) | (up_below & (x << 24)) | (up_below & (x >> 8)) | (
    up_above & (x << 8)) | (up_above & (x >> 24))) & !(x | other)
}

spec fn above(x: u64, i: u64, d: u64) -> bool {
    i + d < 64 && (x >> ((i + d) as u64)) & 1 == 1
}

spec fn below(x: u64, i: u64, d: u64) -> bool {
    i >= d && (x >> ((i - d) as u64)) & 1 == 1
}

spec fn in_line(x: u64, i: u64, s: u64) -> bool {
    ||| below(x, i, s) && below(x, i, (2 * s) as u64) && below(x, i, (3 * s) as u64)
    ||| above(x, i, s) && below(x, i, s) && below(x, i, (2 * s) as u64)
    ||| above(x, i, (2 * s) as u64) && above(x, i, s) && below(x, i, s)
    ||| above(x, i, s) && above(x, i, (2 * s) as u64) && above(x, i, (3 * s) as u64)
}

proof fn lemma_completion_bit(x: u64, other: u64, i: u64)
    by (bit_vector)
    requires
        i < 64,
    ensures
        (completions(x, other) >> i) & 1 == 1 <==> ((x | other) >> i) & 1 != 1 && ((below(x, i, 1)
            && below(x, i, 2) && below(x, i, 3)) || in_line(x, i, 7) || in_line(x, i, 6)
            || in_line(x, i, 8)),
{
}

/// Bit `i` of `completions(x, other)` is set exactly when `i` is free and a
/// stone there would complete a line of four in `x`.
pub proof fn lemma_completions(x: u64, other: u64)
    ensures
        forall|i: int| #[trigger]
            bit(completions(x, other), i) == (0 <= i < 64 && !bit(x | other, i) && completes_four(
                x,
                i,
            )),
{
    assert forall|i: int| #[trigger]
        bit(completions(x, other), i) == (0 <= i < 64 && !bit(x | other, i) && completes_four(
            x,
            i,
        )) by {
        if 0 <= i < 64 {
            let j = i as u64;
            lemma_completion_bit(x, other, j);
            assert forall|d: u64| d <= 24 implies #[trigger] above(x, j, d) == bit(x, i + d) by {}
            assert forall|d: u64| d <= 24 implies #[trigger] below(x, j, d) == bit(x, i - d) by {}
            assert(in_line(x, j, 7) == three_in_line(x, i, 7));
            assert(in_line(x, j, 6) == three_in_line(x, i, 6));
            assert(in_line(x, j, 8) == three_in_line(x, i, 8));
            assert((below(x, j, 1) && below(x, j, 2) && below(x, j, 3)) == three_below(x, i));
        }
    }
}

/// The lowest square of every column.
pub open spec fn bottom_row() -> u64 {
    0x0000_0408_1020_4081
}

/// Every bit that is no square of the grid: the guard above each column and
/// all that lies beyond the last column.
pub open spec fn off_grid() -> u64 {
    0xffff_0204_0810_2040
}

/// The bits of `stones` lie on the grid, and each stands on the bottom row
/// or on another.
pub open spec fn stacked(stones: u64) -> bool {
    stones & off_grid() == 0 && stones & !bottom_row() & !(stones << 1) == 0
}

proof fn lemma_constant_bit(i: u64)
    by (bit_vector)
    requires
        i < 64,
    ensures
        (0x0000_0408_1020_4081u64 >> i) & 1 == 1 <==> i < 49 && i % 7 == 0,
        (0xffff_0204_0810_2040u64 >> i) & 1 == 1 <==> i >= 49 || i % 7 == 6,
{
}

/// Which bits the bottom row and the rest beyond the grid are.
pub proof fn lemma_grid_constants()
    ensures
        forall|i: int| #[trigger] bit(bottom_row(), i) == (0 <= i < 49 && i % 7 == 0),
        forall|i: int| #[trigger] bit(off_grid(), i) == (49 <= i < 64 || (0 <= i < 49 && i % 7 == 6)),
{
    assert forall|i: int| #[trigger] bit(bottom_row(), i) == (0 <= i < 49 && i % 7 == 0) by {
        if 0 <= i < 64 {
            lemma_constant_bit(i as u64);
        }
    }
    assert forall|i: int| #[trigger]
        bit(off_grid(), i) == (49 <= i < 64 || (0 <= i < 49 && i % 7 == 6)) by {
        if 0 <= i < 64 {
            lemma_constant_bit(i as u64);
        }
    }
}

/// Adding a sub-set of a stacked set to it gives a sum that tells both.
pub proof fn lemma_sum_tells_both(part1: u64, all1: u64, part2: u64, all2: u64)
    by (bit_vector)
    requires
        all1 & 0xffff_0204_0810_2040 == 0 && all1 & !0x0000_0408_1020_4081u64 & !(all1 << 1) == 0,
        all2 & 0xffff_0204_0810_2040 == 0 && all2 & !0x0000_0408_1020_4081u64 & !(all2 << 1) == 0,
        part1 & !all1 == 0,
        part2 & !all2 == 0,
        part1 + all1 == part2 + all2,
    ensures
        part1 == part2,
        all1 == all2,
{
}

} // verus!

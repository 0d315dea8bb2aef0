//! Bit-level vocabulary for 64-bit words: what it means for a bit to be set,
//! how many bits are set, and how the bits of a word follow from the bits of
//! the words it is made of.

use vstd::prelude::*;

verus! {

/// Bit `i` of `x` is set. False for every `i` outside `0..64`.
pub open spec fn bit(x: u64, i: int) -> bool {
    0 <= i < 64 && (x >> (i as u64)) & 1 == 1
}

/// The number of set bits of `x` among the positions below `n`.
pub open spec fn count_below(x: u64, n: nat) -> nat
    decreases n,
{
    if n == 0 {
        0
    } else {
        count_below(x, (n - 1) as nat) + if bit(x, n - 1) { 1nat } else { 0nat }
    }
}

/// The number of set bits of `x`.
pub open spec fn count_bits(x: u64) -> nat {
    count_below(x, 64)
}

proof fn lemma_bit_ops(x: u64, y: u64, i: u64)
    by (bit_vector)
    requires
        i < 64,
    ensures
        ((x | y) >> i) & 1 == 1 <==> ((x >> i) & 1 == 1 || (y >> i) & 1 == 1),
        ((x & y) >> i) & 1 == 1 <==> ((x >> i) & 1 == 1 && (y >> i) & 1 == 1),
        ((x ^ y) >> i) & 1 == 1 <==> ((x >> i) & 1 == 1) != ((y >> i) & 1 == 1),
        ((!x) >> i) & 1 == 1 <==> !((x >> i) & 1 == 1),
        (0u64 >> i) & 1 == 0,
{
}

proof fn lemma_single_bit(h: u64, i: u64)
    by (bit_vector)
    requires
        h < 64,
        i < 64,
    ensures
        ((1u64 << h) >> i) & 1 == 1 <==> i == h,
{
}

/// The bits of a union, of an intersection, of a difference and of a
/// complement, one position at a time.
pub proof fn lemma_or_and_bits(x: u64, y: u64)
    ensures
        forall|i: int| #[trigger] bit(x | y, i) == (bit(x, i) || bit(y, i)),
        forall|i: int| #[trigger] bit(x & y, i) == (bit(x, i) && bit(y, i)),
        forall|i: int| #[trigger] bit(x ^ y, i) == (bit(x, i) != bit(y, i)),
        forall|i: int| 0 <= i < 64 ==> #[trigger] bit(!x, i) == !bit(x, i),
{
    assert forall|i: int| #[trigger] bit(x | y, i) == (bit(x, i) || bit(y, i)) by {
        if 0 <= i < 64 {
            lemma_bit_ops(x, y, i as u64);
        }
    }
    assert forall|i: int| #[trigger] bit(x & y, i) == (bit(x, i) && bit(y, i)) by {
        if 0 <= i < 64 {
            lemma_bit_ops(x, y, i as u64);
        }
    }
    assert forall|i: int| #[trigger] bit(x ^ y, i) == (bit(x, i) != bit(y, i)) by {
        if 0 <= i < 64 {
            lemma_bit_ops(x, y, i as u64);
        }
    }
    assert forall|i: int| 0 <= i < 64 implies #[trigger] bit(!x, i) == !bit(x, i) by {
        lemma_bit_ops(x, y, i as u64);
    }
}

/// Zero has no bit set.
pub proof fn lemma_zero_has_no_bits()
    ensures
        forall|i: int| !#[trigger] bit(0u64, i),
        count_bits(0u64) == 0,
{
    assert forall|i: int| !#[trigger] bit(0u64, i) by {
        if 0 <= i < 64 {
            lemma_bit_ops(0, 0, i as u64);
        }
    }
    lemma_count_of_none(0u64, 64);
}

proof fn lemma_count_of_none(x: u64, n: nat)
    requires
        forall|i: int| !#[trigger] bit(x, i),
    ensures
        count_below(x, n) == 0,
    decreases n,
{
    if n > 0 {
        lemma_count_of_none(x, (n - 1) as nat);
    }
}

proof fn lemma_shift_step(x: u64, n: u64)
    by (bit_vector)
    requires
        n < 64,
        x >> n != 0,
    ensures
        (x >> n) & 1 == 1 || (n < 63 && x >> ((n + 1) as u64) != 0),
{
}

proof fn lemma_has_bit_from(x: u64, n: int) -> (i: int)
    requires
        0 <= n < 64,
        x >> (n as u64) != 0,
    ensures
        n <= i < 64,
        bit(x, i),
    decreases 64 - n,
{
    lemma_shift_step(x, n as u64);
    if (x >> (n as u64)) & 1 == 1 {
        n
    } else {
        lemma_has_bit_from(x, n + 1)
    }
}

/// A word is zero exactly when none of its bits is set.
pub proof fn lemma_zero_iff_no_bits(x: u64)
    ensures
        x == 0 <==> forall|i: int| !#[trigger] bit(x, i),
{
    if x == 0 {
        lemma_zero_has_no_bits();
    } else {
        assert(x >> 0u64 == x) by (bit_vector);
        let i = lemma_has_bit_from(x, 0);
        assert(bit(x, i));
    }
}

/// Two words have an empty intersection exactly when they share no set bit.
pub proof fn lemma_disjoint_iff(x: u64, y: u64)
    ensures
        x & y == 0 <==> forall|i: int| !(#[trigger] bit(x, i) && bit(y, i)),
{
    lemma_or_and_bits(x, y);
    lemma_zero_iff_no_bits(x & y);
    if x & y == 0 {
        assert forall|i: int| !(#[trigger] bit(x, i) && bit(y, i)) by {
            assert(!bit(x & y, i));
        }
    }
    if forall|i: int| !(#[trigger] bit(x, i) && bit(y, i)) {
        assert forall|i: int| !#[trigger] bit(x & y, i) by {
            assert(!(bit(x, i) && bit(y, i)));
        }
    }
}

proof fn lemma_split(part: u64, all: u64, rest: u64)
    by (bit_vector)
    requires
        part | rest == all,
        part & rest == 0,
    ensures
        rest == all ^ part,
        part & !all == 0,
{
}

/// Of two words that share no bit, either is the union less the other.
pub proof fn lemma_rest_of_union(part: u64, rest: u64)
    requires
        part & rest == 0,
    ensures
        rest == (part | rest) ^ part,
        part & !(part | rest) == 0,
{
    lemma_split(part, part | rest, rest);
}

proof fn lemma_high_part(x: u64, n: u64)
    by (bit_vector)
    requires
        n < 64,
        x >= (1u64 << n),
    ensures
        x >> n != 0,
{
}

/// A word with no bit set at or above position `n` is less than two to the
/// power `n`.
pub proof fn lemma_below_limit(x: u64, n: int)
    requires
        0 <= n < 64,
        forall|i: int| n <= i < 64 ==> !#[trigger] bit(x, i),
    ensures
        x < (1u64 << (n as u64)),
{
    if x >= (1u64 << (n as u64)) {
        lemma_high_part(x, n as u64);
        let i = lemma_has_bit_from(x, n);
        assert(bit(x, i));
    }
}

proof fn lemma_mask_test_bit(x: u64, i: u64)
    by (bit_vector)
    requires
        i < 64,
    ensures
        x & (1u64 << i) != 0 <==> (x >> i) & 1 == 1,
{
}

/// Masking with a single bit tests that bit.
pub proof fn lemma_mask_test(x: u64, i: int)
    requires
        0 <= i < 64,
    ensures
        x & (1u64 << (i as u64)) != 0 <==> bit(x, i),
{
    lemma_mask_test_bit(x, i as u64);
}

proof fn lemma_shift_up_bit(x: u64, i: u64)
    by (bit_vector)
    requires
        i < 64,
    ensures
        ((x << 1) >> i) & 1 == 1 <==> i >= 1 && (x >> ((i - 1) as u64)) & 1 == 1,
{
}

/// Shifting a word up by one moves every bit up by one.
pub proof fn lemma_shift_up_one(x: u64)
    ensures
        forall|i: int| #[trigger] bit(x << 1, i) == (i < 64 && bit(x, i - 1)),
{
    assert forall|i: int| #[trigger] bit(x << 1, i) == (i < 64 && bit(x, i - 1)) by {
        if 0 <= i < 64 {
            lemma_shift_up_bit(x, i as u64);
        }
    }
}

/// Flipping bit `h` changes that bit and no other, and moves the count of set
/// bits by one.
pub proof fn lemma_flip_bit(x: u64, h: int)
    requires
        0 <= h < 64,
    ensures
        forall|i: int| #[trigger]
            bit(x ^ (1u64 << (h as u64)), i) == (if i == h {
                !bit(x, h)
            } else {
                bit(x, i)
            }),
        bit(x, h) ==> count_bits(x ^ (1u64 << (h as u64))) + 1 == count_bits(x),
        !bit(x, h) ==> count_bits(x ^ (1u64 << (h as u64))) == count_bits(x) + 1,
{
    let y = x ^ (1u64 << (h as u64));
    assert forall|i: int| #[trigger] bit(y, i) == (if i == h {
        !bit(x, h)
    } else {
        bit(x, i)
    }) by {
        if 0 <= i < 64 {
            lemma_bit_ops(x, 1u64 << (h as u64), i as u64);
            lemma_single_bit(h as u64, i as u64);
        }
    }
    lemma_count_after_flip(x, y, h, 64);
}

proof fn lemma_count_after_flip(x: u64, y: u64, h: int, n: nat)
    requires
        0 <= h < 64,
        n <= 64,
        forall|i: int| #[trigger] bit(y, i) == (if i == h {
            !bit(x, h)
        } else {
            bit(x, i)
        }),
    ensures
        h >= n ==> count_below(y, n) == count_below(x, n),
        h < n && bit(x, h) ==> count_below(y, n) + 1 == count_below(x, n),
        h < n && !bit(x, h) ==> count_below(y, n) == count_below(x, n) + 1,
    decreases n,
{
    if n > 0 {
        lemma_count_after_flip(x, y, h, (n - 1) as nat);
        assert(bit(y, n - 1) == (if n - 1 == h {
            !bit(x, h)
        } else {
            bit(x, n - 1)
        }));
    }
}

/// Two words that share no set bit have, between them, as many set bits as
/// their union.
pub proof fn lemma_count_disjoint(x: u64, y: u64)
    requires
        x & y == 0,
    ensures
        count_bits(x | y) == count_bits(x) + count_bits(y),
{
    lemma_disjoint_iff(x, y);
    lemma_or_and_bits(x, y);
    lemma_count_union_below(x, y, 64);
}

proof fn lemma_count_union_below(x: u64, y: u64, n: nat)
    requires
        forall|i: int| !(#[trigger] bit(x, i) && bit(y, i)),
        forall|i: int| #[trigger] bit(x | y, i) == (bit(x, i) || bit(y, i)),
    ensures
        count_below(x | y, n) == count_below(x, n) + count_below(y, n),
    decreases n,
{
    if n > 0 {
        lemma_count_union_below(x, y, (n - 1) as nat);
        assert(!(bit(x, n - 1) && bit(y, n - 1)));
        assert(bit(x | y, n - 1) == (bit(x, n - 1) || bit(y, n - 1)));
    }
}

/// Where the bits from `base` up are set exactly below `base + filled`, the
/// first `width` of them add the smaller of `width` and `filled` to the count.
pub proof fn lemma_count_run(x: u64, base: nat, filled: nat, width: nat)
    requires
        forall|i: int| base <= i < base + width ==> (#[trigger] bit(x, i) <==> i < base + filled),
    ensures
        count_below(x, base + width) == count_below(x, base) + if width <= filled {
            width
        } else {
            filled
        },
    decreases width,
{
    if width > 0 {
        lemma_count_run(x, base, filled, (width - 1) as nat);
        assert(bit(x, base + width - 1) <==> base + width - 1 < base + filled);
    }
}

} // verus!

//! 64-bit masks seen as sets of bit positions.
use vstd::prelude::*;

verus! {

/// Bit `i` of `m` is set. Position 0 is the least significant bit.
pub open spec fn bit(m: u64, i: int) -> bool {
    0 <= i < 64 && (m >> (i as u64)) & 1u64 == 1u64
}

/// The number of set bits of `m` below position `n`.
pub open spec fn ones(m: u64, n: int) -> nat
    decreases n,
{
    if n <= 0 {
        0
    } else {
        ones(m, n - 1) + if bit(m, n - 1) {
            1nat
        } else {
            0nat
        }
    }
}

/// The number of set bits of `m` at or above position `k`.
pub open spec fn rank(m: u64, k: int) -> int {
    ones(m, 64) - ones(m, k)
}

/// The lowest set bit of `m` at or above position `from`; 64 when there is none.
pub open spec fn lowest_from(m: u64, from: int) -> int
    decreases 64 - from,
{
    if from >= 64 {
        64
    } else if bit(m, from) {
        from
    } else {
        lowest_from(m, from + 1)
    }
}

/// The highest set bit of `m` below position `n`; -1 when there is none.
pub open spec fn highest_below(m: u64, n: int) -> int
    decreases n,
{
    if n <= 0 {
        -1
    } else if bit(m, n - 1) {
        n - 1
    } else {
        highest_below(m, n - 1)
    }
}

/// No bit of `m` at or above position `n` is set.
pub open spec fn below(m: u64, n: int) -> bool {
    forall|i: int| n <= i < 64 ==> !#[trigger] bit(m, i)
}

/// `u64::count_ones` returns the number of ones in the binary representation of its argument.
pub assume_specification[ u64::count_ones ](m: u64) -> (r: u32)
    ensures
        r == ones(m, 64),
;

pub broadcast proof fn bit_or(a: u64, b: u64, i: int)
    ensures
        #[trigger] bit(a | b, i) == (bit(a, i) || bit(b, i)),
{
    if 0 <= i < 64 {
        let j = i as u64;
        assert((((a | b) >> j) & 1 == 1) == ((a >> j) & 1 == 1 || (b >> j) & 1 == 1))
            by (bit_vector);
    }
}

pub broadcast proof fn bit_and(a: u64, b: u64, i: int)
    ensures
        #[trigger] bit(a & b, i) == (bit(a, i) && bit(b, i)),
{
    if 0 <= i < 64 {
        let j = i as u64;
        assert((((a & b) >> j) & 1 == 1) == ((a >> j) & 1 == 1 && (b >> j) & 1 == 1))
            by (bit_vector);
    }
}

pub broadcast proof fn bit_xor(a: u64, b: u64, i: int)
    ensures
        #[trigger] bit(a ^ b, i) == (bit(a, i) != bit(b, i)),
{
    if 0 <= i < 64 {
        let j = i as u64;
        assert((((a ^ b) >> j) & 1 == 1) == (((a >> j) & 1 == 1) != ((b >> j) & 1 == 1)))
            by (bit_vector);
    }
}

pub broadcast proof fn bit_not(a: u64, i: int)
    requires
        0 <= i < 64,
    ensures
        #[trigger] bit(!a, i) == !bit(a, i),
{
    let j = i as u64;
    assert((((!a) >> j) & 1 == 1) == !((a >> j) & 1 == 1)) by (bit_vector)
        requires
            j < 64,
    ;
}

pub broadcast proof fn bit_shl(a: u64, n: u64, i: int)
    requires
        n < 64,
    ensures
        #[trigger] bit(a << n, i) == (i < 64 && bit(a, i - n)),
{
    if 0 <= i < 64 {
        let j = i as u64;
        if i >= n {
            let k = (i - n) as u64;
            assert((((a << n) >> j) & 1 == 1) == ((a >> k) & 1 == 1)) by (bit_vector)
                requires
                    j < 64,
                    k + n == j,
            ;
        } else {
            assert(((a << n) >> j) & 1 == 0) by (bit_vector)
                requires
                    j < n,
                    n < 64,
            ;
        }
    }
}

pub broadcast proof fn bit_shr(a: u64, n: u64, i: int)
    requires
        n < 64,
    ensures
        #[trigger] bit(a >> n, i) == (i >= 0 && bit(a, i + n)),
{
    if 0 <= i < 64 {
        let j = i as u64;
        if i + n < 64 {
            let k = (i + n) as u64;
            assert((((a >> n) >> j) & 1 == 1) == ((a >> k) & 1 == 1)) by (bit_vector)
                requires
                    k < 64,
                    j + n == k,
            ;
        } else {
            assert(((a >> n) >> j) & 1 == 0) by (bit_vector)
                requires
                    j + n >= 64,
                    j < 64,
                    n < 64,
            ;
        }
    }
}

/// `1 << n` has bit `n` and no other.
pub broadcast proof fn bit_one(n: u64, i: int)
    requires
        n < 64,
    ensures
        #[trigger] bit(1u64 << n, i) == (i == n),
{
    if 0 <= i < 64 {
        let j = i as u64;
        assert((((1u64 << n) >> j) & 1 == 1) == (j == n)) by (bit_vector)
            requires
                j < 64,
                n < 64,
        ;
    }
}

/// `1 << n` is positive.
pub proof fn one_positive(n: u64)
    requires
        n < 64,
    ensures
        (1u64 << n) >= 1,
{
    assert((1u64 << n) >= 1) by (bit_vector)
        requires
            n < 64,
    ;
}

/// `(1 << n) - 1` has exactly the bits below `n`.
pub proof fn bit_low(n: u64, m: u64)
    requires
        n < 64,
        m == (1u64 << n) - 1,
    ensures
        forall|i: int| #[trigger] bit(m, i) == (0 <= i < n),
{
    assert forall|i: int| #[trigger] bit(m, i) == (0 <= i < n) by {
        if 0 <= i < 64 {
            let j = i as u64;
            assert(((m >> j) & 1 == 1) == (j < n)) by (bit_vector)
                requires
                    j < 64,
                    n < 64,
                    m == (1u64 << n) - 1,
            ;
        }
    }
}

pub broadcast proof fn bit_zero(i: int)
    ensures
        !#[trigger] bit(0u64, i),
{
    if 0 <= i < 64 {
        let j = i as u64;
        assert((0u64 >> j) & 1 == 0) by (bit_vector);
    }
}

/// `1` has bit 0 and no other.
pub broadcast proof fn bit_unit(i: int)
    ensures
        #[trigger] bit(1u64, i) == (i == 0),
{
    if 0 <= i < 64 {
        let j = i as u64;
        assert(((1u64 >> j) & 1 == 1) == (j == 0)) by (bit_vector)
            requires
                j < 64,
        ;
    }
}

/// `u64::MAX` has every bit.
pub broadcast proof fn bit_max(i: int)
    ensures
        #[trigger] bit(u64::MAX, i) == (0 <= i < 64),
{
    if 0 <= i < 64 {
        let j = i as u64;
        assert((0xffff_ffff_ffff_ffffu64 >> j) & 1 == 1) by (bit_vector)
            requires
                j < 64,
        ;
    }
}

pub broadcast group group_bits {
    bit_or,
    bit_and,
    bit_xor,
    bit_not,
    bit_shl,
    bit_shr,
    bit_one,
    bit_zero,
    bit_unit,
    bit_max,
}

/// A mask with no set bit is zero.
pub proof fn no_bits_is_zero(m: u64)
    requires
        forall|i: int| !#[trigger] bit(m, i),
    ensures
        m == 0,
{
    broadcast use vstd::std_specs::bits::axiom_u64_trailing_zeros;

    if m != 0 {
        assert(bit(m, vstd::std_specs::bits::u64_trailing_zeros(m) as int));
    }
}

/// Masks that agree below `n` have equally many ones there.
pub proof fn ones_agree(a: u64, b: u64, n: int)
    requires
        forall|i: int| 0 <= i < n ==> #[trigger] bit(a, i) == bit(b, i),
    ensures
        ones(a, n) == ones(b, n),
    decreases n,
{
    if n > 0 {
        ones_agree(a, b, n - 1);
    }
}

/// The count grows with the bound, by at most one a position.
pub proof fn ones_monotone(m: u64, i: int, j: int)
    requires
        i <= j,
    ensures
        ones(m, i) <= ones(m, j),
        ones(m, j) <= ones(m, i) + (j - i),
    decreases j - i,
{
    if i < j {
        ones_monotone(m, i, j - 1);
    }
}

/// There are no ones in a stretch without set bits.
pub proof fn ones_flat(m: u64, i: int, j: int)
    requires
        i <= j,
        forall|k: int| i <= k < j ==> !#[trigger] bit(m, k),
    ensures
        ones(m, i) == ones(m, j),
    decreases j - i,
{
    if i < j {
        ones_flat(m, i, j - 1);
    }
}

/// Masks that agree on a stretch have equally many ones there.
pub proof fn ones_between(a: u64, b: u64, i: int, j: int)
    requires
        i <= j,
        forall|k: int| i <= k < j ==> #[trigger] bit(a, k) == bit(b, k),
    ensures
        ones(a, j) - ones(a, i) == ones(b, j) - ones(b, i),
    decreases j - i,
{
    if i < j {
        ones_between(a, b, i, j - 1);
        assert(bit(a, j - 1) == bit(b, j - 1));
        if j <= 0 {
            assert(ones(a, i) == 0);
        }
    }
}

/// A stretch of a mask that was moved up by `n` positions keeps its number of ones.
pub proof fn ones_shifted(a: u64, b: u64, n: int, i: int, j: int)
    requires
        n >= 0,
        0 <= i <= j,
        forall|k: int| i <= k < j ==> #[trigger] bit(a, k) == bit(b, k + n),
    ensures
        ones(b, j + n) - ones(b, i + n) == ones(a, j) - ones(a, i),
    decreases j - i,
{
    if i < j {
        ones_shifted(a, b, n, i, j - 1);
        assert(bit(a, j - 1) == bit(b, j - 1 + n));
    }
}

/// The ones of a mask that was cut below position `k`.
pub proof fn ones_from(m: u64, cut: u64, k: int)
    requires
        0 <= k <= 64,
        forall|i: int| 0 <= i < 64 ==> #[trigger] bit(cut, i) == (bit(m, i) && i >= k),
    ensures
        ones(cut, 64) == rank(m, k),
{
    ones_flat(cut, 0, k);
    ones_between(cut, m, k, 64);
}

/// A set bit at or above `k` makes the rank of `k` positive; ranks differ by the ones between.
pub proof fn rank_bounds(m: u64, k: int)
    requires
        0 <= k < 64,
    ensures
        0 <= rank(m, k) <= 64 - k,
        bit(m, k) ==> rank(m, k) >= 1,
        rank(m, k) == rank(m, k + 1) + if bit(m, k) {
            1int
        } else {
            0int
        },
{
    ones_monotone(m, k + 1, 64);
    ones_monotone(m, k, 64);
}

pub proof fn lowest_from_spec(m: u64, from: int)
    requires
        0 <= from <= 64,
    ensures
        from <= lowest_from(m, from) <= 64,
        lowest_from(m, from) < 64 ==> bit(m, lowest_from(m, from)),
        forall|i: int| from <= i < lowest_from(m, from) ==> !#[trigger] bit(m, i),
    decreases 64 - from,
{
    if from < 64 && !bit(m, from) {
        lowest_from_spec(m, from + 1);
    }
}

/// The lowest set bit is the only position with its defining property.
pub proof fn lowest_from_unique(m: u64, from: int, p: int)
    requires
        0 <= from <= p <= 64,
        p < 64 ==> bit(m, p),
        forall|i: int| from <= i < p ==> !#[trigger] bit(m, i),
    ensures
        lowest_from(m, from) == p,
    decreases p - from,
{
    if from < p {
        lowest_from_unique(m, from + 1, p);
    }
}

pub proof fn highest_below_spec(m: u64, n: int)
    requires
        0 <= n,
    ensures
        -1 <= highest_below(m, n) < n,
        highest_below(m, n) >= 0 ==> bit(m, highest_below(m, n)),
        forall|i: int| highest_below(m, n) < i < n ==> !#[trigger] bit(m, i),
    decreases n,
{
    if n > 0 && !bit(m, n - 1) {
        highest_below_spec(m, n - 1);
    }
}

pub proof fn highest_below_unique(m: u64, n: int, p: int)
    requires
        -1 <= p < n,
        p >= 0 ==> bit(m, p),
        forall|i: int| p < i < n ==> !#[trigger] bit(m, i),
    ensures
        highest_below(m, n) == p,
    decreases n - p,
{
    if p < n - 1 {
        highest_below_unique(m, n - 1, p);
    }
}

/// `trailing_zeros` is the lowest set bit.
pub proof fn trailing_zeros_is_lowest(m: u64)
    ensures
        vstd::std_specs::bits::u64_trailing_zeros(m) == lowest_from(m, 0),
{
    broadcast use vstd::std_specs::bits::axiom_u64_trailing_zeros;

    let p = vstd::std_specs::bits::u64_trailing_zeros(m) as int;
    assert forall|i: int| 0 <= i < p implies !#[trigger] bit(m, i) by {
        assert((m >> (i as u64)) & 1u64 == 0u64);
    }
    lowest_from_unique(m, 0, p);
}

/// `leading_zeros` counts down from the top to the highest set bit.
pub proof fn leading_zeros_is_highest(m: u64)
    ensures
        vstd::std_specs::bits::u64_leading_zeros(m) == 63 - highest_below(m, 64),
{
    broadcast use vstd::std_specs::bits::axiom_u64_leading_zeros;

    let z = vstd::std_specs::bits::u64_leading_zeros(m);
    let p = 63 - z;
    if p >= 0 {
        let q = p as u64;
        assert((m >> q) & 1u64 != 0u64);
        assert((m >> q) & 1u64 == 0u64 || (m >> q) & 1u64 == 1u64) by (bit_vector);
    }
    assert forall|i: int| p < i < 64 implies !#[trigger] bit(m, i) by {
        assert((m >> (i as u64)) & 1u64 == 0u64);
    }
    highest_below_unique(m, 64, p);
}

} // verus!

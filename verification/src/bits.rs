//! Sixteen-bit position masks: which positions of a name carry a property.

use vstd::prelude::*;
use vstd::std_specs::bits::{axiom_u16_trailing_zeros, u16_trailing_zeros};

verus! {

/// Whether position `p` is set in `m`. Positions outside `0..16` are never set.
pub open spec fn bit(m: u16, p: int) -> bool {
    0 <= p < 16 && (m >> (p as u16)) & 1 == 1
}

/// Every set position of `m` lies below `n`.
pub open spec fn below(m: u16, n: int) -> bool {
    forall|p: int| n <= p < 16 ==> !bit(m, p)
}

/// Number of set positions of `m` below `n`.
pub open spec fn count_below(m: u16, n: int) -> int
    decreases n,
{
    if n <= 0 {
        0
    } else {
        count_below(m, n - 1) + if bit(m, n - 1) {
            1int
        } else {
            0int
        }
    }
}

/// Number of set positions of `m`.
pub open spec fn popcount(m: u16) -> int {
    count_below(m, 16)
}

/// The mask that holds only the lowest set position of `m`; zero when `m` is zero.
pub open spec fn lowest_set_bit(m: u16) -> u16 {
    if m == 0 {
        0
    } else {
        1u16 << (u16_trailing_zeros(m) as u16)
    }
}

/// The mask whose set positions are exactly `lo..=hi`.
pub open spec fn span_mask(lo: int, hi: int) -> u16
    decreases hi - lo + 1,
{
    if hi < lo {
        0
    } else {
        span_mask(lo, hi - 1) | (1u16 << (hi as u16))
    }
}

proof fn lemma_raw_ops(a: u16, b: u16, p: u16)
    by (bit_vector)
    requires
        p < 16,
    ensures
        (((a | b) >> p) & 1 == 1) == (((a >> p) & 1 == 1) || ((b >> p) & 1 == 1)),
        (((a & b) >> p) & 1 == 1) == (((a >> p) & 1 == 1) && ((b >> p) & 1 == 1)),
        (((!a) >> p) & 1 == 1) == !((a >> p) & 1 == 1),
        ((0u16 >> p) & 1 == 1) == false,
{
}

proof fn lemma_raw_single(k: u16, p: u16)
    by (bit_vector)
    requires
        k < 16,
        p < 16,
    ensures
        (((1u16 << k) >> p) & 1 == 1) == (p == k),
        (1u16 << k) != 0,
{
}

proof fn lemma_raw_shifts(m: u16, p: u16)
    by (bit_vector)
    requires
        p < 16,
    ensures
        (((m << 1) >> p) & 1 == 1) == (p >= 1 && (m >> ((p - 1) as u16)) & 1 == 1),
        (((m >> 1) >> p) & 1 == 1) == (p < 15 && (m >> ((p + 1) as u16)) & 1 == 1),
{
}

proof fn lemma_raw_equal(a: u16, b: u16)
    by (bit_vector)
    requires
        (a >> 0) & 1 == (b >> 0) & 1,
        (a >> 1) & 1 == (b >> 1) & 1,
        (a >> 2) & 1 == (b >> 2) & 1,
        (a >> 3) & 1 == (b >> 3) & 1,
        (a >> 4) & 1 == (b >> 4) & 1,
        (a >> 5) & 1 == (b >> 5) & 1,
        (a >> 6) & 1 == (b >> 6) & 1,
        (a >> 7) & 1 == (b >> 7) & 1,
        (a >> 8) & 1 == (b >> 8) & 1,
        (a >> 9) & 1 == (b >> 9) & 1,
        (a >> 10) & 1 == (b >> 10) & 1,
        (a >> 11) & 1 == (b >> 11) & 1,
        (a >> 12) & 1 == (b >> 12) & 1,
        (a >> 13) & 1 == (b >> 13) & 1,
        (a >> 14) & 1 == (b >> 14) & 1,
        (a >> 15) & 1 == (b >> 15) & 1,
    ensures
        a == b,
{
}

proof fn lemma_raw_one_or_zero(a: u16, p: u16)
    by (bit_vector)
    requires
        p < 16,
    ensures
        (a >> p) & 1 == 0 || (a >> p) & 1 == 1,
{
}

/// Union, intersection and complement act position by position; zero has no
/// position set.
pub proof fn lemma_bit_ops(a: u16, b: u16)
    ensures
        forall|p: int| #[trigger] bit(a | b, p) == (bit(a, p) || bit(b, p)),
        forall|p: int| #[trigger] bit(a & b, p) == (bit(a, p) && bit(b, p)),
        forall|p: int| 0 <= p < 16 ==> #[trigger] bit(!a, p) == !bit(a, p),
        forall|p: int| !#[trigger] bit(0, p),
{
    assert forall|p: int| #[trigger] bit(a | b, p) == (bit(a, p) || bit(b, p)) by {
        if 0 <= p < 16 {
            lemma_raw_ops(a, b, p as u16);
        }
    }
    assert forall|p: int| #[trigger] bit(a & b, p) == (bit(a, p) && bit(b, p)) by {
        if 0 <= p < 16 {
            lemma_raw_ops(a, b, p as u16);
        }
    }
    assert forall|p: int| 0 <= p < 16 implies #[trigger] bit(!a, p) == !bit(a, p) by {
        lemma_raw_ops(a, b, p as u16);
    }
    assert forall|p: int| !#[trigger] bit(0, p) by {
        if 0 <= p < 16 {
            lemma_raw_ops(a, b, p as u16);
        }
    }
}

/// The mask `1 << k` holds position `k` and no other.
pub proof fn lemma_bit_single(k: int)
    requires
        0 <= k < 16,
    ensures
        forall|p: int| #[trigger] bit(1u16 << (k as u16), p) == (p == k),
        (1u16 << (k as u16)) != 0,
{
    assert forall|p: int| #[trigger] bit(1u16 << (k as u16), p) == (p == k) by {
        if 0 <= p < 16 {
            lemma_raw_single(k as u16, p as u16);
        }
    }
    lemma_raw_single(k as u16, 0);
}

/// Shifting by one moves every position by one and drops what leaves the mask.
pub proof fn lemma_bit_shifts(m: u16)
    ensures
        forall|p: int| #[trigger] bit(m << 1, p) == (1 <= p < 16 && bit(m, p - 1)),
        forall|p: int| #[trigger] bit(m >> 1, p) == (p >= 0 && bit(m, p + 1)),
{
    assert forall|p: int| #[trigger] bit(m << 1, p) == (1 <= p < 16 && bit(m, p - 1)) by {
        if 0 <= p < 16 {
            lemma_raw_shifts(m, p as u16);
        }
    }
    assert forall|p: int| #[trigger] bit(m >> 1, p) == (p >= 0 && bit(m, p + 1)) by {
        if 0 <= p < 16 {
            lemma_raw_shifts(m, p as u16);
        }
    }
}

/// Two masks with the same set positions are the same mask.
pub proof fn lemma_bits_equal(a: u16, b: u16)
    requires
        forall|p: int| 0 <= p < 16 ==> bit(a, p) == bit(b, p),
    ensures
        a == b,
{
    assert forall|p: u16| p < 16 implies (a >> p) & 1 == (b >> p) & 1 by {
        assert(bit(a, p as int) == bit(b, p as int));
        lemma_raw_one_or_zero(a, p);
        lemma_raw_one_or_zero(b, p);
    }
    lemma_raw_equal(a, b);
}

/// The lowest set position of a nonzero mask is the count of its trailing
/// zeros, and `lowest_set_bit` holds that position alone.
pub proof fn lemma_lowest_set_bit(m: u16)
    ensures
        m == 0 ==> lowest_set_bit(m) == 0,
        m != 0 ==> {
            let k = u16_trailing_zeros(m) as int;
            &&& 0 <= k < 16
            &&& bit(m, k)
            &&& forall|p: int| 0 <= p < k ==> !bit(m, p)
            &&& lowest_set_bit(m) == 1u16 << (k as u16)
            &&& lowest_set_bit(m) != 0
            &&& forall|p: int| #[trigger] bit(lowest_set_bit(m), p) == (p == k)
        },
{
    axiom_u16_trailing_zeros(m);
    if m != 0 {
        let k = u16_trailing_zeros(m) as int;
        assert forall|p: int| 0 <= p < k implies !bit(m, p) by {
            let j = p as u16;
            assert((m >> j) & 1u16 == 0u16);
        }
        lemma_bit_single(k);
    }
}

/// At most `n` positions lie below `n`.
pub proof fn lemma_count_bounds(m: u16, n: int)
    requires
        0 <= n,
    ensures
        0 <= count_below(m, n) <= n,
    decreases n,
{
    if n > 0 {
        lemma_count_bounds(m, n - 1);
    }
}

proof fn lemma_count_capped(m: u16, len: int, n: int)
    requires
        0 <= len <= n <= 16,
        below(m, len),
    ensures
        count_below(m, n) == count_below(m, len),
    decreases n,
{
    if n > len {
        lemma_count_capped(m, len, n - 1);
    }
}

proof fn lemma_count_add(m: u16, k: int, n: int)
    requires
        0 <= k < 16,
        0 <= n <= 16,
        !bit(m, k),
    ensures
        count_below(m | (1u16 << (k as u16)), n) == count_below(m, n) + if k < n {
            1int
        } else {
            0int
        },
    decreases n,
{
    if n > 0 {
        lemma_count_add(m, k, n - 1);
        lemma_bit_ops(m, 1u16 << (k as u16));
        lemma_bit_single(k);
    }
}

/// A mask confined to the first `len` positions has at most `len` of them set.
pub proof fn lemma_popcount_bound(m: u16, len: int)
    requires
        0 <= len <= 16,
        below(m, len),
    ensures
        0 <= popcount(m) <= len,
{
    lemma_count_capped(m, len, 16);
    lemma_count_bounds(m, len);
}

/// Setting one position that was clear raises the count by one.
pub proof fn lemma_popcount_add_bit(m: u16, k: int)
    requires
        0 <= k < 16,
        !bit(m, k),
    ensures
        popcount(m | (1u16 << (k as u16))) == popcount(m) + 1,
{
    lemma_count_add(m, k, 16);
}

/// The empty mask has no position set.
pub proof fn lemma_popcount_zero()
    ensures
        popcount(0) == 0,
{
    lemma_bit_ops(0, 0);
    assert(below(0, 0));
    lemma_popcount_bound(0, 0);
}

/// `span_mask(lo, hi)` holds position `p` exactly when `lo <= p <= hi`.
pub proof fn lemma_span_mask(lo: int, hi: int)
    requires
        0 <= lo,
        hi < 16,
    ensures
        forall|p: int| #[trigger] bit(span_mask(lo, hi), p) == (lo <= p <= hi),
    decreases hi - lo + 1,
{
    if hi < lo {
        lemma_bit_ops(0, 0);
    } else {
        lemma_span_mask(lo, hi - 1);
        lemma_bit_ops(span_mask(lo, hi - 1), 1u16 << (hi as u16));
        lemma_bit_single(hi);
    }
}

/// A mask with a set position counts at least one.
pub proof fn lemma_popcount_positive(m: u16, k: int)
    requires
        bit(m, k),
    ensures
        popcount(m) >= 1,
{
    lemma_count_has(m, k, 16);
}

proof fn lemma_count_has(m: u16, k: int, n: int)
    requires
        bit(m, k),
        k < n <= 16,
    ensures
        count_below(m, n) >= 1,
    decreases n,
{
    if k < n - 1 {
        lemma_count_has(m, k, n - 1);
    } else {
        lemma_count_bounds(m, n - 1);
    }
}

} // verus!

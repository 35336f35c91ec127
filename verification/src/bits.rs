//! Facts about single bits of a 64-bit mask.

use vstd::prelude::*;

verus! {

/// Whether bit `k` of `mask` is set.
pub open spec fn bit(mask: u64, k: u64) -> bool {
    mask & (1u64 << k) != 0
}

/// No bit of the empty mask is set.
pub proof fn lemma_bit_of_zero(k: u64)
    by (bit_vector)
    requires
        k < 64,
    ensures
        !bit(0u64, k),
{
}

/// Every bit of the full mask is set.
pub proof fn lemma_bit_of_full(k: u64)
    by (bit_vector)
    requires
        k < 64,
    ensures
        bit(0xffff_ffff_ffff_ffffu64, k),
{
}

/// The mask of bit `j` alone has bit `j` set and no other.
pub proof fn lemma_bit_of_single(j: u64, k: u64)
    by (bit_vector)
    requires
        j < 64,
        k < 64,
    ensures
        bit(1u64 << j, k) == (j == k),
{
}

/// The full mask without bit `j` has every bit set but bit `j`.
pub proof fn lemma_bit_of_all_but(j: u64, k: u64)
    by (bit_vector)
    requires
        j < 64,
        k < 64,
    ensures
        bit(0xffff_ffff_ffff_ffffu64 ^ (1u64 << j), k) == (j != k),
{
}

/// Setting bit `j` of a mask sets bit `j` and leaves the other bits alone.
pub proof fn lemma_bit_after_set(mask: u64, j: u64, k: u64)
    by (bit_vector)
    requires
        j < 64,
        k < 64,
    ensures
        bit(mask | (1u64 << j), k) == (bit(mask, k) || j == k),
{
}

/// If two masks differ at bit `k` or above, they differ at bit `k`, or at a
/// bit above it.
proof fn lemma_differing_bit_step(a: u64, b: u64, k: u64)
    by (bit_vector)
    requires
        k < 64,
        (a ^ b) >> k != 0,
    ensures
        bit(a, k) != bit(b, k) || (k < 63 && (a ^ b) >> ((k + 1) as u64) != 0),
{
}

/// Two different masks differ at some bit.
proof fn lemma_differing_bit_start(a: u64, b: u64)
    by (bit_vector)
    requires
        a != b,
    ensures
        (a ^ b) >> 0u64 != 0,
{
}

/// A bit at which two masks differ, found from bit `k` upwards.
proof fn lemma_differing_bit_from(a: u64, b: u64, k: u64) -> (d: u64)
    requires
        k < 64,
        (a ^ b) >> k != 0,
    ensures
        d < 64,
        bit(a, d) != bit(b, d),
    decreases 64 - k,
{
    lemma_differing_bit_step(a, b, k);
    if bit(a, k) != bit(b, k) {
        k
    } else {
        lemma_differing_bit_from(a, b, (k + 1) as u64)
    }
}

/// Two masks that agree on every bit are the same mask.
pub proof fn lemma_masks_equal(a: u64, b: u64)
    requires
        forall|k: u64| k < 64 ==> bit(a, k) == bit(b, k),
    ensures
        a == b,
{
    if a != b {
        lemma_differing_bit_start(a, b);
        let d = lemma_differing_bit_from(a, b, 0);
        assert(bit(a, d) == bit(b, d));
    }
}

} // verus!

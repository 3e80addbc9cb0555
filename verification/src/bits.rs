//! Bit-level helpers shared by clauses and branching tables.

use vstd::prelude::*;

verus! {

/// Number of one bits in the binary representation of `x`.
pub open spec fn popcount(x: nat) -> nat
    decreases x,
{
    if x == 0 {
        0
    } else {
        (x % 2) + popcount(x / 2)
    }
}

/// A number below `2^k` has at most `k` one bits.
pub proof fn lemma_popcount_bound(x: nat, k: nat)
    requires
        x < vstd::arithmetic::power2::pow2(k),
    ensures
        popcount(x) <= k,
    decreases k,
{
    if x == 0 {
    } else if k == 0 {
        vstd::arithmetic::power2::lemma2_to64();
    } else {
        vstd::arithmetic::power2::lemma_pow2_unfold(k);
        assert(x / 2 < vstd::arithmetic::power2::pow2((k - 1) as nat));
        lemma_popcount_bound(x / 2, (k - 1) as nat);
    }
}

/// Only zero has no one bits.
pub proof fn lemma_popcount_zero(x: nat)
    ensures
        popcount(x) == 0 <==> x == 0,
    decreases x,
{
    if x != 0 {
        lemma_popcount_zero(x / 2);
    }
}

/// Counts the one bits of `x` (the same value as `u64::count_ones`).
pub fn count_ones(x: u64) -> (r: u32)
    ensures
        r == popcount(x as nat),
{
    proof {
        vstd::arithmetic::power2::lemma2_to64();
        lemma_popcount_bound(x as nat, 64);
    }
    let mut y: u64 = x;
    let mut c: u32 = 0;
    while y != 0
        invariant
            c + popcount(y as nat) == popcount(x as nat),
            popcount(x as nat) <= 64,
        decreases y,
    {
        assert((y & 1u64) == y % 2) by (bit_vector);
        let low: u64 = y & 1u64;
        assert((y >> 1u64) == y / 2) by (bit_vector);
        c = c + (low as u32);
        y = y >> 1u64;
    }
    c
}

} // verus!

//! Single bits of 64-bit words, as used by priority sets.

use vstd::prelude::*;

verus! {

/// Whether bit `p` of `bits` is set.
pub open spec fn bit_set(bits: u64, p: u64) -> bool {
    (bits >> p) & 1u64 == 1u64
}

/// Setting bit `p` sets exactly that bit.
pub proof fn lemma_bit_insert(x: u64, p: u64, i: u64)
    requires
        p < 64,
        i < 64,
    ensures
        bit_set(x | (1u64 << p), i) == (i == p || bit_set(x, i)),
{
    assert((((x | (1u64 << p)) >> i) & 1u64 == 1u64) == (i == p || ((x >> i) & 1u64 == 1u64)))
        by (bit_vector)
        requires
            p < 64,
            i < 64,
    ;
}

/// Clearing bit `p` clears exactly that bit.
pub proof fn lemma_bit_remove(x: u64, p: u64, i: u64)
    requires
        p < 64,
        i < 64,
    ensures
        bit_set(x & !(1u64 << p), i) == (i != p && bit_set(x, i)),
{
    assert((((x & !(1u64 << p)) >> i) & 1u64 == 1u64) == (i != p && ((x >> i) & 1u64 == 1u64)))
        by (bit_vector)
        requires
            p < 64,
            i < 64,
    ;
}

/// Masking with bit `p` tests that bit.
pub proof fn lemma_bit_test(x: u64, p: u64)
    requires
        p < 64,
    ensures
        ((x & (1u64 << p)) != 0u64) == bit_set(x, p),
{
    assert(((x & (1u64 << p)) != 0u64) == ((x >> p) & 1u64 == 1u64)) by (bit_vector)
        requires
            p < 64,
    ;
}

/// No bit of zero is set.
pub proof fn lemma_bit_zero(i: u64)
    requires
        i < 64,
    ensures
        !bit_set(0u64, i),
{
    assert(((0u64 >> i) & 1u64) == 0u64) by (bit_vector);
}

} // verus!

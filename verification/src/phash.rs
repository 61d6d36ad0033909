//! Perceptual-hash arithmetic: bit counting and Hamming distance between
//! 64-bit hashes.

use vstd::prelude::*;
use vstd::arithmetic::power2::{pow2, lemma_pow2_unfold, lemma2_to64_rest};

verus! {

/// Number of one bits in `x`.
pub open spec fn popcount(x: u64) -> nat
    decreases x,
{
    if x == 0 {
        0
    } else {
        (x % 2) as nat + popcount(x / 2)
    }
}

/// Hamming distance between two 64-bit hashes: the number of bit positions
/// in which their two's-complement representations differ.
pub open spec fn hamming(a: i64, b: i64) -> nat {
    popcount((a as u64) ^ (b as u64))
}

/// A value below `2^k` has at most `k` one bits.
pub proof fn lemma_popcount_bound(x: u64, k: nat)
    requires
        (x as int) < pow2(k),
    ensures
        popcount(x) <= k,
    decreases k,
{
    if x != 0 {
        if k == 0 {
            assert(pow2(0) == 1) by {
                vstd::arithmetic::power2::lemma2_to64();
            }
        } else {
            lemma_pow2_unfold(k);
            lemma_popcount_bound(x / 2, (k - 1) as nat);
        }
    }
}

/// At most 64 bits of a 64-bit value are set.
pub proof fn lemma_popcount_le_64(x: u64)
    ensures
        popcount(x) <= 64,
{
    lemma2_to64_rest();
    lemma_popcount_bound(x, 64);
}

/// Only zero has no bit set.
pub proof fn lemma_popcount_zero(x: u64)
    ensures
        popcount(x) == 0 <==> x == 0,
    decreases x,
{
    if x != 0 {
        if x % 2 == 0 {
            lemma_popcount_zero(x / 2);
        }
    }
}

/// The number of one bits of `x`, counted bit by bit from the lowest.
fn count_ones(x: u64) -> (r: u32)
    ensures
        r == popcount(x),
{
    proof {
        lemma_popcount_le_64(x);
    }
    let mut y: u64 = x;
    let mut c: u32 = 0;
    while y != 0
        invariant
            c + popcount(y) == popcount(x),
            popcount(x) <= 64,
        decreases y,
    {
        let bit = y & 1;
        assert(y & 1 == y % 2) by (bit_vector);
        assert(y >> 1 == y / 2) by (bit_vector);
        c = c + bit as u32;
        y = y >> 1;
    }
    c
}

/// The number of positions in which two hashes differ (`(a ^ b).count_ones()`).
pub fn hamming_distance(a: i64, b: i64) -> (r: u32)
    ensures
        r == hamming(a, b),
        r <= 64,
{
    let x: u64 = (a as u64) ^ (b as u64);
    proof {
        lemma_popcount_le_64(x);
    }
    count_ones(x)
}

/// Hamming distance is a metric's first two laws: a hash is at distance 0
/// from itself and from nothing else, and the distance does not depend on
/// the order of the two hashes; it never exceeds 64.
pub proof fn lemma_hamming_laws(a: i64, b: i64)
    ensures
        hamming(a, b) == hamming(b, a),
        hamming(a, b) == 0 <==> a == b,
        hamming(a, b) <= 64,
{
    let x = (a as u64) ^ (b as u64);
    assert((a as u64) ^ (b as u64) == (b as u64) ^ (a as u64)) by (bit_vector);
    assert(((a as u64) ^ (b as u64) == 0) <==> a == b) by (bit_vector);
    lemma_popcount_zero(x);
    lemma_popcount_le_64(x);
}

} // verus!

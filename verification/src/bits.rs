//! Single bits of machine words, as used by hand masks and board bitsets.
use vstd::prelude::*;
use vstd::arithmetic::power2::pow2;

verus! {

/// Bit `i` of `x`.
pub open spec fn bit_set(x: u64, i: int) -> bool {
    (x as nat / pow2(i as nat)) % 2 == 1
}

/// `mask & (1 << c)` tests bit `c`.
pub proof fn lemma_bit_test(x: u64, c: u64)
    requires
        c < 64,
    ensures
        (x & (1u64 << c) != 0) == bit_set(x, c as int),
{
    assert((x & (1u64 << c) != 0) == ((x >> c) & 1 == 1)) by (bit_vector)
        requires c < 64;
    vstd::bits::lemma_u64_shr_is_div(x, c);
    let y = x >> c;
    assert(y & 1 == y % 2) by (bit_vector);
}

/// Bit `q` of `x`, read by shifting.
pub proof fn lemma_bit_shift(x: u64, q: int)
    requires
        0 <= q < 64,
    ensures
        bit_set(x, q) == ((x >> (q as u64)) & 1 == 1),
{
    vstd::bits::lemma_u64_shr_is_div(x, q as u64);
    let y = x >> (q as u64);
    assert(y & 1 == y % 2) by (bit_vector);
}

/// A bit of a join is a bit of one side.
pub proof fn lemma_bit_or(a: u64, b: u64, q: int)
    requires
        0 <= q < 64,
    ensures
        bit_set(a | b, q) == (bit_set(a, q) || bit_set(b, q)),
{
    lemma_bit_shift(a, q);
    lemma_bit_shift(b, q);
    lemma_bit_shift(a | b, q);
    let sq = q as u64;
    assert(((a | b) >> sq) & 1 == 1 <==> ((a >> sq) & 1 == 1 || (b >> sq) & 1 == 1))
        by (bit_vector);
}

/// A power of two has exactly one bit.
pub proof fn lemma_bit_single(p: int, q: int)
    requires
        0 <= p < 64,
        0 <= q < 64,
    ensures
        bit_set(pow2(p as nat) as u64, q) == (p == q),
{
    vstd::bits::lemma_u64_pow2_no_overflow(p as nat);
    vstd::bits::lemma_u64_shl_is_mul(1, p as u64);
    let x = 1u64 << (p as u64);
    lemma_bit_shift(x, q);
    let sp = p as u64;
    let sq = q as u64;
    assert(sp < 64 && sq < 64 ==> (((1u64 << sp) >> sq) & 1 == 1 <==> sp == sq)) by (bit_vector);
}

/// Setting bit `c` sets that bit and leaves the others.
pub proof fn lemma_bit_insert(x: u64, c: int, q: int)
    requires
        0 <= c < 64,
        0 <= q < 64,
    ensures
        bit_set(x | (1u64 << (c as u64)), q) == (bit_set(x, q) || q == c),
{
    vstd::bits::lemma_u64_pow2_no_overflow(c as nat);
    vstd::bits::lemma_u64_shl_is_mul(1, c as u64);
    lemma_bit_or(x, 1u64 << (c as u64), q);
    lemma_bit_single(c, q);
}

/// No bit of zero is set.
pub proof fn lemma_bit_zero(q: int)
    requires
        0 <= q,
    ensures
        !bit_set(0, q),
{
    vstd::arithmetic::power2::lemma_pow2_pos(q as nat);
}

} // verus!

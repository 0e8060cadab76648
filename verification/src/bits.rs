use vstd::prelude::*;

verus! {

/// Number of set bits of a 64-bit word.
pub open spec fn popcount(x: u64) -> nat
    decreases x,
{
    if x == 0 {
        0
    } else {
        (x % 2) as nat + popcount(x / 2)
    }
}

/// Bit `i` of `x` is set.
pub open spec fn has_bit(x: u64, i: int) -> bool {
    (x >> (i as u64)) & 1 == 1
}

/// Only zero has no set bits.
pub proof fn lemma_popcount_zero(x: u64)
    ensures
        popcount(x) == 0 <==> x == 0,
    decreases x,
{
    if x != 0 {
        if x % 2 == 0 {
            lemma_popcount_zero(x / 2);
        }
    }
}

/// The bits of a word are its lowest bit and the bits of the rest.
proof fn lemma_popcount_step(x: u64)
    ensures
        popcount(x) == (x % 2) as nat + popcount(x / 2),
{
}

/// Setting a bit that was clear adds one to the number of set bits.
pub proof fn lemma_popcount_set_bit(m: u64, c: u64)
    requires
        c < 64,
        !has_bit(m, c as int),
    ensures
        popcount(m | (1u64 << c)) == popcount(m) + 1,
    decreases c,
{
    lemma_popcount_step(m);
    lemma_popcount_step(m | (1u64 << c));
    if c == 0 {
        assert((m >> 0u64) & 1 != 1 ==> (m | (1u64 << 0u64)) % 2 == 1 && m % 2 == 0 && (m | (1u64
            << 0u64)) / 2 == m / 2) by (bit_vector);
    } else {
        let d: u64 = (c - 1) as u64;
        assert(c == d + 1 && d < 63 ==> (m | (1u64 << c)) % 2 == m % 2 && (m | (1u64 << c)) / 2 == (m
            / 2) | (1u64 << d) && (((m >> c) & 1 == 1) == (((m / 2) >> d) & 1 == 1))) by (bit_vector);
        lemma_popcount_set_bit(m / 2, d);
    }
}

/// Number of set bits of `x`, as `u64::count_ones` computes it.
pub fn count_ones(x: u64) -> (res: u32)
    ensures
        res == popcount(x),
        res <= 64,
{
    let mut v = x;
    let mut c: u32 = 0;
    proof {
        lemma_popcount_le_64(x);
    }
    while v != 0
        invariant
            c + popcount(v) == popcount(x),
            popcount(x) <= 64,
        decreases v,
    {
        assert(v & 1 == v % 2) by (bit_vector);
        assert(v >> 1 == v / 2) by (bit_vector);
        c = c + (v & 1) as u32;
        v = v >> 1;
    }
    c
}

proof fn lemma_popcount_bound(x: u64, k: nat)
    requires
        x < pow2_u64(k),
    ensures
        popcount(x) <= k,
    decreases k,
{
    if x != 0 {
        if k == 0 {
            assert(false);
        } else {
            assert(x / 2 < pow2_u64((k - 1) as nat));
            lemma_popcount_bound(x / 2, (k - 1) as nat);
        }
    }
}

spec fn pow2_u64(k: nat) -> int
    decreases k,
{
    if k == 0 {
        1
    } else {
        2 * pow2_u64((k - 1) as nat)
    }
}

proof fn lemma_popcount_le_64(x: u64)
    ensures
        popcount(x) <= 64,
{
    reveal_with_fuel(pow2_u64, 65);
    assert(pow2_u64(64) == 0x1_0000_0000_0000_0000);
    lemma_popcount_bound(x, 64);
}

} // verus!

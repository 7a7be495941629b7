use vstd::prelude::*;

verus! {

broadcast use vstd::std_specs::bits::axiom_u64_leading_zeros;

/// `x` is a power of two: 1, 2, 4, 8, ...
pub open spec fn is_pow2(x: nat) -> bool
    decreases x,
{
    if x <= 1 {
        x == 1
    } else {
        x % 2 == 0 && is_pow2(x / 2)
    }
}

/// `1 << k` is a power of two.
proof fn lemma_shl_is_pow2(k: u64)
    requires
        k < 64,
    ensures
        is_pow2((1u64 << k) as nat),
    decreases k,
{
    if k == 0 {
        assert(1u64 << 0u64 == 1) by (bit_vector);
    } else {
        assert((1u64 << k) / 2 == 1u64 << vstd::prelude::sub(k, 1) && (1u64 << k) % 2 == 0 && (1u64
            << k) > 1) by (bit_vector)
            requires
                0 < k < 64,
        ;
        lemma_shl_is_pow2((k - 1) as u64);
    }
}

/// The largest power of two that is at most `length`.
pub fn bit_floor(length: usize) -> (r: usize)
    requires
        length > 0,
    ensures
        is_pow2(r as nat),
        r <= length,
        length < 2 * r,
{
    let n = length as u64;
    let shift: u32 = u64::BITS - n.leading_zeros() - 1;
    let r = 1u64 << shift;
    proof {
        let k = shift as u64;
        assert(k < 64);
        assert((n >> k) & 1u64 != 0u64 && n >> vstd::prelude::add(k, 1) == 0 ==> n >> k == 1u64)
            by (bit_vector);
        assert(k < 64 && n >> k == 1u64 ==> (1u64 << k) <= n && n - (1u64 << k) < (1u64 << k))
            by (bit_vector);
        lemma_shl_is_pow2(k);
    }
    r as usize
}

/// The smallest power of two that is at least `n`.
/// Relies on `usize::next_power_of_two`, which returns exactly that when it
/// fits in a `usize` (and overflows otherwise, which `requires` rules out).
#[verifier::external_body]
pub(crate) fn next_power_of_two(n: usize) -> (r: usize)
    requires
        2 * n <= usize::MAX + 1,
    ensures
        is_pow2(r as nat),
        n <= r,
        r == 1 || r < 2 * n,
{
    n.next_power_of_two()
}

} // verus!

//! Rounding to powers of two.

use vstd::arithmetic::power2::pow2;
use vstd::prelude::*;

verus! {

pub open spec fn is_pow2(n: int) -> bool {
    exists|k: nat| n == pow2(k)
}

/// The least multiple of `to` that is `>= n`.
pub open spec fn rounded_up(n: int, to: int) -> int {
    (n + to - 1) / to * to
}

/// Clearing the bits below a power of two leaves the multiple below.
pub proof fn lemma_clear_low_bits(x: usize, to: usize)
    requires
        is_pow2(to as int),
    ensures
        to > 0,
        x & !((to - 1) as usize) == x / to * to,
{
    let k = choose|k: nat| to == pow2(k);
    let mask = (to - 1) as usize;
    vstd::arithmetic::power2::lemma_pow2_pos(k);
    vstd::arithmetic::power2::lemma2_to64();
    if k > usize::BITS {
        vstd::arithmetic::power2::lemma_pow2_strictly_increases(usize::BITS as nat, k);
    }
    assert(pow2(usize::BITS as nat) == usize::MAX + 1);
    vstd::bits::lemma_usize_low_bits_mask_is_mod(x, k);
    assert(x & !mask == x - (x & mask)) by (bit_vector);
    vstd::arithmetic::div_mod::lemma_fundamental_div_mod(x as int, to as int);
    vstd::arithmetic::mul::lemma_mul_is_commutative(x as int / to as int, to as int);
}

/// Rounding up gives a multiple, and the least one.
pub proof fn lemma_rounded_up(n: int, to: int)
    requires
        0 <= n,
        0 < to,
    ensures
        n <= rounded_up(n, to) < n + to,
        rounded_up(n, to) % to == 0,
{
    let q = (n + to - 1) / to;
    vstd::arithmetic::div_mod::lemma_fundamental_div_mod(n + to - 1, to);
    vstd::arithmetic::mul::lemma_mul_is_commutative(q, to);
    vstd::arithmetic::div_mod::lemma_mod_multiples_basic(q, to);
}

/// A number that rounding takes beyond the machine's numbers rounds up to one that lies there.
pub proof fn lemma_beyond(n: int, to: usize)
    requires
        0 <= n,
        is_pow2(to as int),
        n + to - 1 > usize::MAX,
    ensures
        rounded_up(n, to as int) > usize::MAX,
{
    let k = choose|k: nat| to == pow2(k);
    let all = usize::BITS as nat;
    vstd::arithmetic::power2::lemma_pow2_pos(k);
    vstd::arithmetic::power2::lemma2_to64();
    assert(pow2(all) == usize::MAX + 1);
    if k > all {
        vstd::arithmetic::power2::lemma_pow2_strictly_increases(all, k);
    }
    let q = pow2((all - k) as nat) as int;
    vstd::arithmetic::power2::lemma_pow2_adds(k, (all - k) as nat);
    vstd::arithmetic::mul::lemma_mul_is_commutative(q, to as int);
    vstd::arithmetic::div_mod::lemma_div_multiples_vanish(q, to as int);
    vstd::arithmetic::div_mod::lemma_div_is_ordered(q * to, n + to - 1, to as int);
    vstd::arithmetic::mul::lemma_mul_inequality(q, (n + to - 1) / to as int, to as int);
}

/// Rounds `n` up to a multiple of `to`.
pub fn round_up(n: usize, to: usize) -> (r: usize)
    requires
        to >= 1,
        n + to - 1 <= usize::MAX,
    ensures
        r == ((n + to - 1) as usize) & !((to - 1) as usize),
        is_pow2(to as int) ==> r == rounded_up(n as int, to as int),
{
    proof {
        if is_pow2(to as int) {
            lemma_clear_low_bits((n + to - 1) as usize, to);
        }
    }
    (n + (to - 1)) & !(to - 1)
}

} // verus!

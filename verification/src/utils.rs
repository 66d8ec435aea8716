use vstd::prelude::*;

verus! {

use vstd::arithmetic::power2::pow2;
use vstd::arithmetic::power2::lemma_pow2_pos;
use vstd::arithmetic::power2::lemma_pow2_unfold;
use vstd::arithmetic::power2::lemma2_to64;

/// True exactly when `n` is 2^k for some k >= 0.
pub open spec fn is_power_of_two_spec(n: int) -> bool {
    exists|k: nat| n == pow2(k)
}

/// Tests whether `n` is a power of two. Zero and negative numbers are
/// never powers of two; positive numbers are tested with the
/// single-set-bit trick `n & (n - 1) == 0`.
pub fn power_of_two(n: i64) -> (r: bool)
    ensures
        r == is_power_of_two_spec(n as int),
{
    if n <= 0 {
        proof {
            lemma_nonpositive_not_pow2(n as int);
        }
        false
    } else {
        let u: u64 = n as u64;
        let r = u & (u - 1) == 0;
        proof {
            lemma_single_bit_iff_pow2(u);
        }
        r
    }
}

/// The same test for a buffer length.
pub fn power_of_two_usize(n: usize) -> (r: bool)
    ensures
        r == is_power_of_two_spec(n as int),
{
    if n == 0 {
        proof {
            lemma_nonpositive_not_pow2(0);
        }
        false
    } else {
        let u: u64 = n as u64;
        let r = u & (u - 1) == 0;
        proof {
            lemma_single_bit_iff_pow2(u);
        }
        r
    }
}

/// Powers of two are positive, so a nonpositive number is not one.
proof fn lemma_nonpositive_not_pow2(n: int)
    requires
        n <= 0,
    ensures
        !is_power_of_two_spec(n),
{
    assert forall|k: nat| n != pow2(k) by {
        lemma_pow2_pos(k);
    }
}

/// For positive `u`, having a single set bit is the same as being a
/// power of two.
proof fn lemma_single_bit_iff_pow2(u: u64)
    requires
        u > 0,
    ensures
        (u & ((u - 1) as u64) == 0) == is_power_of_two_spec(u as int),
{
    if u & ((u - 1) as u64) == 0 {
        lemma_single_bit_imp_pow2(u);
    }
    if is_power_of_two_spec(u as int) {
        let k = choose|k: nat| u as int == pow2(k);
        lemma_pow2_imp_single_bit(u, k);
    }
}

/// A positive value with a single set bit is a power of two: halving
/// keeps the single set bit until only the unit bit remains.
proof fn lemma_single_bit_imp_pow2(u: u64)
    requires
        u > 0,
        u & ((u - 1) as u64) == 0,
    ensures
        is_power_of_two_spec(u as int),
    decreases u,
{
    if u == 1 {
        lemma2_to64();
        assert(u as int == pow2(0));
    } else {
        let h: u64 = (u / 2) as u64;
        assert(h > 0 && h & ((h - 1) as u64) == 0 && u % 2 == 0) by (bit_vector)
            requires
                h == u / 2 && u > 1 && u & ((u - 1) as u64) == 0,
        ;
        lemma_single_bit_imp_pow2(h);
        let k = choose|k: nat| h as int == pow2(k);
        lemma_pow2_unfold(k + 1);
        assert(u as int == pow2(k + 1));
    }
}

/// A power of two has a single set bit: doubling a single-bit value
/// shifts its bit left by one.
proof fn lemma_pow2_imp_single_bit(u: u64, k: nat)
    requires
        u as int == pow2(k),
    ensures
        u & ((u - 1) as u64) == 0,
    decreases k,
{
    lemma_pow2_pos(k);
    if k == 0 {
        lemma2_to64();
        assert(1u64 & ((1u64 - 1) as u64) == 0) by (bit_vector);
    } else {
        lemma_pow2_unfold(k);
        lemma_pow2_pos((k - 1) as nat);
        let h: u64 = (u / 2) as u64;
        lemma_pow2_imp_single_bit(h, (k - 1) as nat);
        assert(u & ((u - 1) as u64) == 0) by (bit_vector)
            requires
                h == u / 2 && u % 2 == 0 && u > 1 && h & ((h - 1) as u64) == 0,
        ;
    }
}

} // verus!

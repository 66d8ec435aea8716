use vstd::prelude::*;

verus! {

use vstd::arithmetic::power2::pow2;
use vstd::arithmetic::power2::lemma_pow2_pos;
use vstd::arithmetic::power2::lemma_pow2_unfold;
use vstd::arithmetic::power2::lemma_pow2_strictly_increases;
use vstd::arithmetic::power2::lemma_pow2_adds;
use vstd::arithmetic::power2::lemma2_to64;
use vstd::arithmetic::power2::lemma2_to64_rest;
use vstd::arithmetic::div_mod::lemma_div_denominator;
use vstd::arithmetic::div_mod::lemma_hoist_over_denominator;
use vstd::arithmetic::div_mod::lemma_fundamental_div_mod;
use vstd::arithmetic::div_mod::lemma_fundamental_div_mod_converse;
use vstd::arithmetic::div_mod::lemma_mod_multiples_vanish;
use vstd::arithmetic::div_mod::lemma_div_basics;

/// Bit `s` of `i` (0 or 1).
pub open spec fn bit_of(i: nat, s: nat) -> nat {
    (i / pow2(s)) % 2
}

/// The lowest `k` bits of `i`, read in reverse order: bit `s` of `i`
/// (for `s < k`) becomes bit `k - 1 - s` of the result. Higher bits of
/// `i` are ignored.
pub open spec fn rev_bits(k: nat, i: nat) -> nat
    decreases k,
{
    if k == 0 {
        0
    } else {
        2 * rev_bits((k - 1) as nat, i) + bit_of(i, (k - 1) as nat)
    }
}

/// Monotonicity of powers of two.
proof fn lemma_pow2_le(e1: nat, e2: nat)
    requires
        e1 <= e2,
    ensures
        pow2(e1) <= pow2(e2),
{
    if e1 < e2 {
        lemma_pow2_strictly_increases(e1, e2);
    }
}

/// A reversed `k`-bit value fits in `k` bits.
pub proof fn lemma_rev_bits_bound(k: nat, i: nat)
    ensures
        rev_bits(k, i) < pow2(k),
    decreases k,
{
    if k == 0 {
        lemma2_to64();
    } else {
        let km1 = (k - 1) as nat;
        lemma_rev_bits_bound(km1, i);
        lemma_pow2_unfold(k);
    }
}

/// `rev_bits(k, _)` reads only the lowest `k` bits: adding a multiple
/// of `pow2(k)` to the input does not change the result.
proof fn lemma_rev_bits_high(k: nat, a: nat, c: nat)
    ensures
        rev_bits(k, (a + c * pow2(k)) as nat) == rev_bits(k, a),
    decreases k,
{
    if k != 0 {
        let km1 = (k - 1) as nat;
        lemma_pow2_unfold(k);
        lemma_pow2_pos(km1);
        assert(c * pow2(k) == (2 * c) * pow2(km1)) by (nonlinear_arith)
            requires
                pow2(k) == 2 * pow2(km1),
        ;
        lemma_rev_bits_high(km1, a, 2 * c);
        // The bit at position k-1 is unchanged as well.
        lemma_hoist_over_denominator(a as int, 2 * c as int, pow2(km1));
        assert((a + c * pow2(k)) as int / pow2(km1) as int == a as int / pow2(km1) as int + 2 * c);
        lemma_mod_multiples_vanish(c as int, (a as int / pow2(km1) as int), 2);
        assert(bit_of((a + c * pow2(k)) as nat, km1) == bit_of(a, km1));
    }
}

/// Peeling from the other end: the lowest bit of the input becomes the
/// highest bit of the reversed value.
proof fn lemma_rev_bits_alt(k: nat, i: nat)
    requires
        k >= 1,
    ensures
        rev_bits(k, i) == (i % 2) * pow2((k - 1) as nat) + rev_bits((k - 1) as nat, i / 2),
    decreases k,
{
    let km1 = (k - 1) as nat;
    if k == 1 {
        lemma2_to64();
        lemma_div_basics(i as int);
        assert(rev_bits(0, i) == 0);
        assert(rev_bits(0, i / 2) == 0);
        assert(rev_bits(1, i) == 2 * rev_bits(0, i) + bit_of(i, 0));
        assert(bit_of(i, 0) == i % 2);
    } else {
        let km2 = (k - 2) as nat;
        lemma_rev_bits_alt(km1, i);
        lemma_pow2_unfold(km1);
        lemma_pow2_pos(km2);
        // bit k-1 of i is bit k-2 of i/2
        lemma_div_denominator(i as int, 2, pow2(km2) as int);
        assert(i as int / (2 * pow2(km2)) as int == (i as int / 2) / pow2(km2) as int);
        assert(bit_of(i, km1) == bit_of(i / 2, km2));
        assert(2 * ((i % 2) * pow2(km2)) == (i % 2) * pow2(km1)) by (nonlinear_arith)
            requires
                pow2(km1) == 2 * pow2(km2),
        ;
        assert(rev_bits(k, i) == 2 * rev_bits(km1, i) + bit_of(i, km1));
        assert(rev_bits(km1, i / 2) == 2 * rev_bits(km2, i / 2) + bit_of(i / 2, km2));
        assert(rev_bits(k, i) == 2 * ((i % 2) * pow2(km2) + rev_bits(km2, i / 2)) + bit_of(
            i / 2,
            km2,
        ));
    }
}

/// Law: reversing the lowest `k` bits twice gives the value back.
pub proof fn lemma_rev_bits_involution(k: nat, i: nat)
    requires
        i < pow2(k),
    ensures
        rev_bits(k, rev_bits(k, i)) == i,
    decreases k,
{
    if k == 0 {
        lemma2_to64();
    } else {
        let km1 = (k - 1) as nat;
        let b0 = i % 2;
        let q = i / 2;
        lemma_pow2_unfold(k);
        assert(q < pow2(km1)) by (nonlinear_arith)
            requires
                i < 2 * pow2(km1) && q == i / 2,
        ;
        lemma_rev_bits_alt(k, i);
        let r1 = rev_bits(km1, q);
        lemma_rev_bits_bound(km1, q);
        let j = rev_bits(k, i);
        assert(j == b0 * pow2(km1) + r1);
        lemma_pow2_pos(km1);
        lemma_fundamental_div_mod_converse(j as int, pow2(km1) as int, b0 as int, r1 as int);
        assert(bit_of(j, km1) == b0);
        lemma_rev_bits_high(km1, r1, b0);
        assert(rev_bits(km1, j) == rev_bits(km1, r1));
        lemma_rev_bits_involution(km1, q);
        assert(rev_bits(k, j) == 2 * q + b0);
        lemma_fundamental_div_mod(i as int, 2);
    }
}

/// The buffer reordered by bit-reversed index: element `i` of the
/// result is element `rev_bits(k, i)` of `s`.
pub open spec fn bit_rev_permute<T>(k: nat, s: Seq<T>) -> Seq<T> {
    Seq::new(s.len(), |idx: int| s[rev_bits(k, idx as nat) as int])
}

/// Law: the bit-reversal permutation is self-inverse. Applying it
/// twice to any buffer of power-of-two length restores the original
/// order.
pub proof fn lemma_bit_rev_permute_self_inverse<T>(k: nat, s: Seq<T>)
    requires
        s.len() == pow2(k),
    ensures
        bit_rev_permute(k, bit_rev_permute(k, s)) == s,
{
    let t = bit_rev_permute(k, s);
    let u = bit_rev_permute(k, t);
    assert forall|idx: int| 0 <= idx < s.len() implies u[idx] == s[idx] by {
        lemma_rev_bits_bound(k, idx as nat);
        lemma_rev_bits_involution(k, idx as nat);
    }
    assert(u =~= s);
}

/// Powers of two are distinct, so the exponent is determined by the
/// value.
pub proof fn lemma_pow2_injective(a: nat, b: nat)
    requires
        pow2(a) == pow2(b),
    ensures
        a == b,
{
    if a < b {
        lemma_pow2_strictly_increases(a, b);
    }
    if b < a {
        lemma_pow2_strictly_increases(b, a);
    }
}

/// The exponent of a power of two.
pub open spec fn log2_of(n: nat) -> nat {
    choose|k: nat| pow2(k) == n
}

/// `log2_of` inverts `pow2`.
pub proof fn lemma_log2_of_pow2(k: nat)
    ensures
        log2_of(pow2(k)) == k,
{
    let n = pow2(k);
    assert(exists|j: nat| pow2(j) == n);
    lemma_pow2_injective(log2_of(n), k);
}

/// A smaller power of two divides a larger one.
pub proof fn lemma_pow2_divides(a: nat, b: nat)
    requires
        a <= b,
    ensures
        pow2(b) % pow2(a) == 0,
{
    lemma_pow2_adds(a, (b - a) as nat);
    lemma_pow2_pos(a);
    vstd::arithmetic::div_mod::lemma_mod_multiples_basic(
        pow2((b - a) as nat) as int,
        pow2(a) as int,
    );
}

/// Doubling a smaller power of two stays within the larger one.
pub proof fn lemma_pow2_double_le(a: nat, b: nat)
    requires
        pow2(a) < pow2(b),
    ensures
        2 * pow2(a) <= pow2(b),
{
    if b <= a {
        lemma_pow2_le(b, a);
    }
    lemma_pow2_le((a + 1) as nat, b);
    lemma_pow2_unfold((a + 1) as nat);
}

/// Computes the exponent of a power of two: the `k` with
/// `pow2(k) == n`.
pub fn log2_exact(n: usize) -> (k: usize)
    requires
        crate::utils::is_power_of_two_spec(n as int),
    ensures
        pow2(k as nat) == n,
        k as nat == log2_of(n as nat),
{
    let ghost e = choose|e: nat| n as int == pow2(e);
    let mut k: usize = 0;
    let mut m: usize = n;
    proof {
        lemma2_to64();
        lemma2_to64_rest();
        assert(n as int == pow2(e));
        lemma_pow2_pos(e);
        assert(m as nat * pow2(0) == n as nat);
    }
    while m > 1
        invariant
            m >= 1,
            crate::utils::is_power_of_two_spec(m as int),
            m as nat * pow2(k as nat) == n as nat,
            pow2(k as nat) <= n as nat,
            k < 64,
        decreases m,
    {
        proof {
            let j = choose|j: nat| m as int == pow2(j);
            assert(j != 0) by {
                lemma2_to64();
            }
            lemma_pow2_unfold(j);
            assert(m / 2 >= 1 && m % 2 == 0 && m / 2 < m && m / 2 == pow2((j - 1) as nat));
            lemma_pow2_unfold((k + 1) as nat);
            assert((m / 2) as nat * pow2((k + 1) as nat) == n as nat) by (nonlinear_arith)
                requires
                    m as nat * pow2(k as nat) == n as nat,
                    m % 2 == 0,
                    pow2((k + 1) as nat) == 2 * pow2(k as nat),
            ;
            assert(pow2((k + 1) as nat) <= n as nat) by (nonlinear_arith)
                requires
                    (m / 2) as nat * pow2((k + 1) as nat) == n as nat,
                    m / 2 >= 1,
            ;
            assert(k + 1 < 64) by {
                if k + 1 >= 64 {
                    lemma_pow2_le(64, (k + 1) as nat);
                    lemma2_to64_rest();
                }
            }
        }
        m = m / 2;
        k = k + 1;
    }
    proof {
        lemma_log2_of_pow2(k as nat);
    }
    k
}

/// Computes `rev_bits(k, i)`: the lowest `k` bits of `i`, reversed.
pub fn rev_index(k: usize, i: usize) -> (r: usize)
    requires
        pow2(k as nat) <= usize::MAX,
        i < pow2(k as nat),
    ensures
        r == rev_bits(k as nat, i as nat),
        r < pow2(k as nat),
{
    let mut r: usize = 0;
    let mut t: usize = i;
    let mut s: usize = 0;
    proof {
        lemma2_to64();
        lemma_div_basics(i as int);
    }
    while s < k
        invariant
            s <= k,
            pow2(k as nat) <= usize::MAX,
            i < pow2(k as nat),
            r == rev_bits(s as nat, i as nat),
            r < pow2(s as nat),
            t == i as nat / pow2(s as nat),
        decreases k - s,
    {
        proof {
            lemma_pow2_unfold((s + 1) as nat);
            lemma_pow2_le((s + 1) as nat, k as nat);
            lemma_pow2_pos(s as nat);
            lemma_div_denominator(i as int, pow2(s as nat) as int, 2);
        }
        r = 2 * r + t % 2;
        t = t / 2;
        s = s + 1;
    }
    proof {
        lemma_rev_bits_bound(k as nat, i as nat);
    }
    r
}

} // verus!

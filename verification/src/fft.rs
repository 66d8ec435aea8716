use vstd::prelude::*;

verus! {

use vstd::arithmetic::power2::pow2;
use vstd::arithmetic::power2::lemma2_to64;
use vstd::arithmetic::div_mod::lemma_fundamental_div_mod;
use vstd::pervasive::VecAdditionalExecFns;
use crate::bits::rev_bits;
use crate::bits::bit_rev_permute;
use crate::bits::log2_of;
use crate::bits::log2_exact;
use crate::bits::rev_index;
use crate::bits::lemma_rev_bits_bound;
use crate::bits::lemma_rev_bits_involution;
use crate::bits::lemma_log2_of_pow2;
use crate::bits::lemma_pow2_double_le;
use crate::bits::lemma_pow2_divides;
use crate::bits::lemma_pow2_injective;
use vstd::arithmetic::power2::lemma_pow2_pos;
use vstd::arithmetic::power2::lemma_pow2_unfold;
use vstd::arithmetic::power2::lemma_pow2_strictly_increases;
use vstd::arithmetic::div_mod::lemma_fundamental_div_mod_converse;
use crate::numeric::BigFloat;
use crate::numeric::ComplexSample;
use crate::utils::is_power_of_two_spec;
use crate::utils::power_of_two_usize;

/// The butterfly index of position `m` in a stage of width `l`: its
/// offset inside its block, folded onto the lower half.
spec fn bf_k(m: nat, l: nat) -> nat {
    if m % l < l / 2 {
        m % l
    } else {
        (m % l - l / 2) as nat
    }
}

/// The block that position `m` belongs to in a stage of width `l`.
spec fn bf_j(m: nat, l: nat) -> nat {
    m / l
}

/// One butterfly combination stage of width `l` over the whole
/// buffer: in each block, the pair at offsets `k` and `k + l/2` (for
/// each butterfly offset `k` below `l/2`) becomes `lo + w*hi` and
/// `lo - w*hi`, with `w` the twiddle factor for the angle
/// `sign*(2k/l)*pi`, both computed from the pair's original values.
pub open spec fn butterfly_stage<R: BigFloat>(
    s: Seq<ComplexSample<R>>,
    sign: i8,
    precision: u32,
    l: nat,
) -> Seq<ComplexSample<R>> {
    Seq::new(
        s.len(),
        |m: int|
            (if (m as nat) % l < l / 2 {
                s[m].plus_spec(
                    ComplexSample::<R>::unit_phasor_spec(
                        precision,
                        sign < 0,
                        ((m as nat) % l) as u64,
                        l as u64,
                    ).times_spec(s[m + (l / 2)]),
                )
            } else {
                s[m - (l / 2)].minus_spec(
                    ComplexSample::<R>::unit_phasor_spec(
                        precision,
                        sign < 0,
                        ((m as nat) % l - l / 2) as u64,
                        l as u64,
                    ).times_spec(s[m]),
                )
            }),
    )
}

/// The buffer after the first `t` butterfly stages, of widths 2, 4,
/// ..., 2^t, applied in that order.
pub open spec fn combined<R: BigFloat>(
    s: Seq<ComplexSample<R>>,
    sign: i8,
    precision: u32,
    t: nat,
) -> Seq<ComplexSample<R>>
    decreases t,
{
    if t == 0 {
        s
    } else {
        butterfly_stage(combined(s, sign, precision, (t - 1) as nat), sign, precision, pow2(t))
    }
}

/// Why a transform run was refused.
#[derive(Debug, PartialEq, Eq)]
pub enum FftError {
    /// The buffer length is not a power of two.
    InvalidLength,
}

/// An in-place iterative Cooley-Tukey transform over a buffer of
/// arbitrary-precision complex samples.
pub struct Fft<R> {
    /// The working buffer; transformed in place by `run`.
    pub data: Vec<ComplexSample<R>>,
    /// The recorded buffer length; tracks `data`.
    pub n: usize,
    /// 1 for the forward transform, -1 for the inverse-sign transform.
    pub sign: i8,
    /// The bit precision for all twiddle and butterfly arithmetic.
    pub precision: u32,
}

impl<R> Fft<R> {
    /// The recorded length tracks the buffer, and the sign is one of
    /// the two transform directions.
    pub open spec fn wf(&self) -> bool {
        &&& self.n == self.data@.len()
        &&& (self.sign == 1 || self.sign == -1)
    }

    /// A transform with an empty buffer, forward sign, and the default
    /// precision of 200 bits.
    pub fn new() -> (r: Self)
        ensures
            r.wf(),
            r.data@.len() == 0,
            r.n == 0,
            r.sign == 1,
            r.precision == 200,
    {
        Fft { data: Vec::new(), n: 0, sign: 1, precision: 200 }
    }

    /// A transform with an empty buffer and the given direction and
    /// precision.
    pub fn with_parameters(sign: i8, precision: u32) -> (r: Self)
        requires
            sign == 1 || sign == -1,
        ensures
            r.wf(),
            r.data@.len() == 0,
            r.n == 0,
            r.sign == sign,
            r.precision == precision,
    {
        Fft { data: Vec::new(), n: 0, sign, precision }
    }

    /// Replaces the working buffer wholesale and records its length.
    /// No validation happens here; `run` checks the length.
    pub fn asign_data(&mut self, data: Vec<ComplexSample<R>>)
        ensures
            old(self).wf() ==> final(self).wf(),
            final(self).data@ == data@,
            final(self).n == data@.len(),
            final(self).sign == old(self).sign,
            final(self).precision == old(self).precision,
    {
        self.data = data;
        self.n = self.data.len();
    }

    /// Reorders the buffer in place so that the entry at each index
    /// moves to the index with the reversed bit pattern. Each unordered
    /// pair of distinct indices is swapped exactly once.
    pub fn bit_reversal(&mut self)
        requires
            old(self).wf(),
            is_power_of_two_spec(old(self).data@.len() as int),
        ensures
            final(self).wf(),
            final(self).n == old(self).n,
            final(self).sign == old(self).sign,
            final(self).precision == old(self).precision,
            final(self).data@ == bit_rev_permute(
                log2_of(old(self).data@.len() as nat),
                old(self).data@,
            ),
    {
        let n = self.data.len();
        let k = log2_exact(n);
        let ghost kn = k as nat;
        let ghost orig = self.data@;
        proof {
            assert forall|m: nat| m < n implies #[trigger] rev_bits(kn, m) < n && rev_bits(
                kn,
                rev_bits(kn, m),
            ) == m by {
                lemma_rev_bits_bound(kn, m);
                lemma_rev_bits_involution(kn, m);
            }
        }
        let mut i: usize = 0;
        while i < n
            invariant
                i <= n,
                kn == k as nat,
                n == pow2(kn),
                n == orig.len(),
                self.data@.len() == n,
                self.n == old(self).n,
                self.sign == old(self).sign,
                self.precision == old(self).precision,
                forall|m: nat|
                    m < n ==> #[trigger] rev_bits(kn, m) < n && rev_bits(kn, rev_bits(kn, m)) == m,
                forall|m: int|
                    0 <= m < n ==> #[trigger] self.data@[m] == (
                    if m < i || rev_bits(kn, m as nat) < i {
                        orig[rev_bits(kn, m as nat) as int]
                    } else {
                        orig[m]
                    }),
            decreases n - i,
        {
            let j = rev_index(k, i);
            if j > i {
                let ghost before = self.data@;
                vec_swap(&mut self.data, i, j);
                proof {
                    assert forall|m: int| 0 <= m < n implies #[trigger] self.data@[m] == (
                    if m < i + 1 || rev_bits(kn, m as nat) < i + 1 {
                        orig[rev_bits(kn, m as nat) as int]
                    } else {
                        orig[m]
                    }) by {
                        if m == i {
                            assert(before[j as int] == orig[j as int]);
                        } else if m == j {
                            assert(before[i as int] == orig[i as int]);
                        } else {
                            assert(self.data@[m] == before[m]);
                            if rev_bits(kn, m as nat) == i {
                                assert(rev_bits(kn, rev_bits(kn, m as nat)) == m as nat);
                                assert(m == j);
                            }
                        }
                    }
                }
            } else {
                proof {
                    assert forall|m: int| 0 <= m < n implies #[trigger] self.data@[m] == (
                    if m < i + 1 || rev_bits(kn, m as nat) < i + 1 {
                        orig[rev_bits(kn, m as nat) as int]
                    } else {
                        orig[m]
                    }) by {
                        if rev_bits(kn, m as nat) == i {
                            assert(rev_bits(kn, rev_bits(kn, m as nat)) == m as nat);
                        }
                    }
                }
            }
            i = i + 1;
        }
        proof {
            lemma_log2_of_pow2(kn);
            assert(self.data@ =~= bit_rev_permute(kn, orig));
        }
    }
}

impl<R: BigFloat> Fft<R> {
    /// Validates the buffer length and transforms the buffer in place:
    /// bit-reversal permutation, then the butterfly combination stages.
    /// A buffer whose length is not a power of two is refused, and the
    /// buffer is left untouched.
    pub fn run(&mut self) -> (r: Result<(), FftError>)
        requires
            old(self).wf(),
        ensures
            final(self).wf(),
            final(self).n == old(self).n,
            final(self).sign == old(self).sign,
            final(self).precision == old(self).precision,
            final(self).data@.len() == old(self).data@.len(),
            match r {
                Ok(()) => {
                    &&& is_power_of_two_spec(old(self).data@.len() as int)
                    &&& final(self).data@ == combined(
                        bit_rev_permute(
                            log2_of(old(self).data@.len() as nat),
                            old(self).data@,
                        ),
                        old(self).sign,
                        old(self).precision,
                        log2_of(old(self).data@.len() as nat),
                    )
                },
                Err(e) => {
                    &&& e == FftError::InvalidLength
                    &&& !is_power_of_two_spec(old(self).data@.len() as int)
                    &&& final(self).data@ == old(self).data@
                },
            },
    {
        if !power_of_two_usize(self.data.len()) {
            return Err(FftError::InvalidLength);
        }
        self.bit_reversal();
        self.danielson_lanczos();
        Ok(())
    }

    /// The iterative butterfly combination: stages of width `l` double
    /// from 2 up to the buffer length; within a stage, butterfly `k`
    /// combines entries `j*l + k` and `j*l + k + l/2` of every block
    /// `j` through the twiddle factor for the angle `sign*(2k/l)*pi`.
    /// Each new pair is computed from the pair's original values
    /// before either entry is overwritten, and the result is exactly
    /// the stage-doubling recurrence `combined`.
    fn danielson_lanczos(&mut self)
        requires
            old(self).wf(),
            is_power_of_two_spec(old(self).data@.len() as int),
        ensures
            final(self).wf(),
            final(self).n == old(self).n,
            final(self).sign == old(self).sign,
            final(self).precision == old(self).precision,
            final(self).data@.len() == old(self).data@.len(),
            final(self).data@ == combined(
                old(self).data@,
                old(self).sign,
                old(self).precision,
                log2_of(old(self).data@.len() as nat),
            ),
            old(self).data@.len() <= 1 ==> final(self).data@ == old(self).data@,
    {
        let n = self.data.len();
        let ghost orig = self.data@;
        let ghost bigk = log2_of(n as nat);
        let ghost mut t: nat = 0;
        let mut l: usize = 2;
        proof {
            lemma2_to64();
            assert(2 as int == pow2(1));
            let e = choose|e: nat| n as int == pow2(e);
            lemma_log2_of_pow2(e);
            assert(pow2(bigk) == n);
            lemma_pow2_pos(bigk);
        }
        if n < 2 {
            proof {
                if bigk != 0 {
                    lemma_pow2_strictly_increases(0, bigk);
                }
                assert(bigk == 0);
            }
            return ;
        }
        loop
            invariant_except_break
                l == pow2((t + 1) as nat),
                l <= n,
            invariant
                n == old(self).data@.len(),
                orig == old(self).data@,
                self.data@.len() == n,
                self.n == old(self).n,
                self.sign == old(self).sign,
                self.precision == old(self).precision,
                old(self).wf(),
                2 <= l,
                pow2(bigk) == n,
                bigk == log2_of(n as nat),
                pow2(t) <= n,
                self.data@ == combined(orig, self.sign, self.precision, t),
            ensures
                self.data@.len() == n,
                self.n == old(self).n,
                self.sign == old(self).sign,
                self.precision == old(self).precision,
                self.data@ == combined(orig, self.sign, self.precision, bigk),
            decreases n - l,
        {
            let half = l / 2;
            let ghost s0 = self.data@;
            let ghost stagev = butterfly_stage::<R>(s0, self.sign, self.precision, l as nat);
            proof {
                lemma_pow2_unfold((t + 1) as nat);
                assert(l % 2 == 0);
                assert(t + 1 <= bigk) by {
                    if t + 1 > bigk {
                        lemma_pow2_strictly_increases(bigk, (t + 1) as nat);
                    }
                }
                lemma_pow2_divides((t + 1) as nat, bigk);
                assert(n % l == 0);
            }
            let mut k: usize = 0;
            while k < half
                invariant
                    n == old(self).data@.len(),
                    self.data@.len() == n,
                    self.n == old(self).n,
                    self.sign == old(self).sign,
                    self.precision == old(self).precision,
                    2 <= l,
                    l <= n,
                    l % 2 == 0,
                    n % l == 0,
                    half == l / 2,
                    k <= half,
                    s0.len() == n,
                    stagev == butterfly_stage::<R>(s0, self.sign, self.precision, l as nat),
                    forall|m: int|
                        0 <= m < n ==> #[trigger] self.data@[m] == (
                        if bf_k(m as nat, l as nat) < k {
                            stagev[m]
                        } else {
                            s0[m]
                        }),
                decreases half - k,
            {
                let w = ComplexSample::<R>::unit_phasor(
                    self.precision,
                    self.sign < 0,
                    k as u64,
                    l as u64,
                );
                let blocks = n / l;
                let mut j: usize = 0;
                while j < blocks
                    invariant
                        n == old(self).data@.len(),
                        self.data@.len() == n,
                        self.n == old(self).n,
                        self.sign == old(self).sign,
                        self.precision == old(self).precision,
                        2 <= l,
                        l <= n,
                        l % 2 == 0,
                        n % l == 0,
                        half == l / 2,
                        k < half,
                        blocks == n / l,
                        j <= blocks,
                        s0.len() == n,
                        stagev == butterfly_stage::<R>(s0, self.sign, self.precision, l as nat),
                        w == ComplexSample::<R>::unit_phasor_spec(
                            self.precision,
                            self.sign < 0,
                            k as u64,
                            l as u64,
                        ),
                        forall|m: int|
                            0 <= m < n ==> #[trigger] self.data@[m] == (
                            if bf_k(m as nat, l as nat) < k || (bf_k(m as nat, l as nat) == k
                                && bf_j(m as nat, l as nat) < j) {
                                stagev[m]
                            } else {
                                s0[m]
                            }),
                    decreases blocks - j,
                {
                    proof {
                        lemma_fundamental_div_mod(n as int, l as int);
                        assert((n / l) * l <= n);
                        assert(j * l + l <= (n / l) * l) by (nonlinear_arith)
                            requires
                                j < n / l && l >= 1,
                        ;
                    }
                    let lo_idx = j * l + k;
                    let hi_idx = lo_idx + half;
                    proof {
                        lemma_fundamental_div_mod_converse(
                            lo_idx as int,
                            l as int,
                            j as int,
                            k as int,
                        );
                        lemma_fundamental_div_mod_converse(
                            hi_idx as int,
                            l as int,
                            j as int,
                            (k + half) as int,
                        );
                        assert(bf_k(lo_idx as nat, l as nat) == k && bf_j(lo_idx as nat, l as nat)
                            == j);
                        assert(bf_k(hi_idx as nat, l as nat) == k && bf_j(hi_idx as nat, l as nat)
                            == j);
                        assert(self.data@[lo_idx as int] == s0[lo_idx as int]);
                        assert(self.data@[hi_idx as int] == s0[hi_idx as int]);
                    }
                    let t_val = w.times(&self.data[hi_idx]);
                    let new_hi = self.data[lo_idx].minus(&t_val);
                    let new_lo = self.data[lo_idx].plus(&t_val);
                    let ghost before = self.data@;
                    self.data.set(hi_idx, new_hi);
                    self.data.set(lo_idx, new_lo);
                    proof {
                        assert(new_lo == stagev[lo_idx as int]);
                        assert(new_hi == stagev[hi_idx as int]);
                        assert forall|m: int| 0 <= m < n implies #[trigger] self.data@[m] == (
                        if bf_k(m as nat, l as nat) < k || (bf_k(m as nat, l as nat) == k && bf_j(
                            m as nat,
                            l as nat,
                        ) < j + 1) {
                            stagev[m]
                        } else {
                            s0[m]
                        }) by {
                            if m != lo_idx && m != hi_idx {
                                assert(self.data@[m] == before[m]);
                                if bf_k(m as nat, l as nat) == k && bf_j(m as nat, l as nat)
                                    == j {
                                    lemma_fundamental_div_mod(m, l as int);
                                    assert(m == (l as int) * (m / (l as int)) + (m % (l as int)));
                                    assert(m / (l as int) == j);
                                    if (m as nat) % (l as nat) < (l as nat) / 2 {
                                        assert((m as nat) % (l as nat) == k as nat);
                                        assert(m % (l as int) == k as int);
                                        assert(m == lo_idx as int) by (nonlinear_arith)
                                            requires
                                                m == (l as int) * (m / (l as int)) + (m % (
                                                l as int)),
                                                m / (l as int) == j as int,
                                                m % (l as int) == k as int,
                                                lo_idx == j * l + k,
                                        ;
                                    } else {
                                        assert((m as nat) % (l as nat) == (k + half) as nat);
                                        assert(m % (l as int) == (k + half) as int);
                                        assert(m == hi_idx as int) by (nonlinear_arith)
                                            requires
                                                m == (l as int) * (m / (l as int)) + (m % (
                                                l as int)),
                                                m / (l as int) == j as int,
                                                m % (l as int) == (k + half) as int,
                                                hi_idx == j * l + k + half,
                                        ;
                                    }
                                    assert(false);
                                }
                            }
                        }
                    }
                    j = j + 1;
                }
                proof {
                    assert forall|m: int| 0 <= m < n implies #[trigger] self.data@[m] == (
                    if bf_k(m as nat, l as nat) < k + 1 {
                        stagev[m]
                    } else {
                        s0[m]
                    }) by {
                        if bf_k(m as nat, l as nat) == k {
                            lemma_fundamental_div_mod(m, l as int);
                            lemma_fundamental_div_mod(n as int, l as int);
                            assert(m / (l as int) < n / l) by (nonlinear_arith)
                                requires
                                    0 <= m < n && l >= 2 && n % l == 0,
                            ;
                            assert(bf_j(m as nat, l as nat) < n / l);
                        }
                    }
                }
                k = k + 1;
            }
            proof {
                assert forall|m: int| 0 <= m < n implies self.data@[m] == stagev[m] by {
                    assert(bf_k(m as nat, l as nat) < (l / 2) as nat);
                }
                assert(self.data@ =~= stagev);
                t = t + 1;
                assert(pow2(t) == l);
                assert(self.data@ == combined(orig, self.sign, self.precision, t));
            }
            if l == n {
                proof {
                    lemma_pow2_injective(t, bigk);
                }
                break ;
            }
            proof {
                lemma_pow2_double_le(t, bigk);
                lemma_pow2_unfold((t + 1) as nat);
                assert((2 * l) as int == pow2((t + 1) as nat));
            }
            l = 2 * l;
        }
    }

}

/// Swaps the entries at two distinct indices, leaving the rest of the
/// buffer as it was.
fn vec_swap<T>(v: &mut Vec<T>, i: usize, j: usize)
    requires
        i < j,
        j < old(v)@.len(),
    ensures
        final(v)@ == old(v)@.update(i as int, old(v)@[j as int]).update(j as int, old(v)@[i as int]),
{
    let ghost s = v@;
    let x = v.remove(i);
    let y = v.remove(j - 1);
    v.insert(i, y);
    v.insert(j, x);
    proof {
        s.remove_ensures(i as int);
        s.remove(i as int).remove_ensures(j - 1);
        s.remove(i as int).remove(j - 1).insert_ensures(i as int, y);
        s.remove(i as int).remove(j - 1).insert(i as int, y).insert_ensures(j as int, x);
        assert(v@ =~= s.update(i as int, s[j as int]).update(j as int, s[i as int]));
    }
}

} // verus!

//! Conversions between doubles and whole numbers.
use vstd::arithmetic::div_mod::*;
use vstd::arithmetic::mul::*;
use vstd::arithmetic::power2::*;
use vstd::prelude::*;

use crate::flt;
use crate::flt::arith;
use crate::flt::rounding;
use crate::flt::{Flt, INF_MAG, TWO52, TWO53};

verus! {

/// The double nearest to the whole number `x`.
pub open spec fn of_nat(x: int) -> Flt {
    flt::signed(false, flt::nearest(x * pow2(1074), 1))
}

/// A double is its own nearest double.
pub proof fn lemma_exact(m: int, d: int)
    requires
        0 <= m < INF_MAG,
        d > 0,
    ensures
        flt::nearest(flt::weight(m) * d, d) == m,
{
    flt::lemma_weight_step(m);
    let w = flt::weight(m);
    let n = w * d;
    let above = flt::weight(m + 1);
    assert(2 * n < (w + above) * d) by (nonlinear_arith)
        requires
            n == w * d,
            w < above,
            d > 0,
    ;
    if m > 0 {
        flt::lemma_weight_step(m - 1);
        let below = flt::weight(m - 1);
        assert((below + w) * d < 2 * n) by (nonlinear_arith)
            requires
                n == w * d,
                below < w,
                d > 0,
        ;
    }
    flt::lemma_nearest(n, d, m);
}

/// A whole number of at most 53 bits, scaled by a power of two, is a double.
pub proof fn lemma_representable(k: int, s: int) -> (m: int)
    requires
        0 <= k < TWO53,
        0 <= s <= 1100,
    ensures
        0 <= m < INF_MAG,
        flt::weight(m) == k * pow2(s as nat),
        m <= s * TWO52 + TWO53,
    decreases s,
{
    lemma2_to64();
    if k == 0 {
        reveal(flt::weight);
        assert(k * pow2(s as nat) == 0) by (nonlinear_arith)
            requires
                k == 0,
        ;
        0
    } else if s == 0 || k >= TWO52 {
        flt::lemma_weight_split(s, k);
        s * TWO52 + k
    } else {
        let m = lemma_representable(2 * k, s - 1);
        lemma_pow2_unfold(s as nat);
        assert(2 * k * pow2((s - 1) as nat) == k * pow2(s as nat)) by (nonlinear_arith)
            requires
                pow2(s as nat) == 2 * pow2((s - 1) as nat),
        ;
        m
    }
}

impl Flt {
    /// The double nearest to `x`.
    pub fn from_u64(x: u64) -> (r: Flt)
        ensures
            r == of_nat(x as int),
    {
        proof {
            arith::lemma_exact_digits(x * pow2(1074), x as int, 1074);
        }
        let mag: u64 = rounding::round_mag(
            x as u128,
            1074,
            false,
            Ghost(x * pow2(1074)),
            Ghost(1),
        );
        proof {
            flt::lemma_nearest(x * pow2(1074), 1, mag as int);
        }
        Flt::build(false, mag)
    }

    /// The whole part; 0 for NaN and for negative numbers, and the largest
    /// `u64` for anything past it.
    pub open spec fn whole(self) -> int {
        if self.nan() || self.neg() {
            0
        } else if flt::weight(self.mag()) / (pow2(1074) as int) > u64::MAX {
            u64::MAX as int
        } else {
            flt::weight(self.mag()) / (pow2(1074) as int)
        }
    }

    /// The whole part is a 64-bit number.
    pub proof fn lemma_whole(self)
        ensures
            0 <= self.whole() <= u64::MAX,
    {
        lemma_pow2_pos(1074);
        if !self.nan() {
            flt::lemma_weight_step(self.mag());
        }
        let a = flt::weight(self.mag());
        let p = pow2(1074) as int;
        assert(a >= 0 ==> a / p >= 0) by (nonlinear_arith)
            requires
                p > 0,
        ;
    }

    /// The whole part.
    pub fn trunc_u64(self) -> (r: u64)
        ensures
            r == self.whole(),
    {
        let ghost one = pow2(1074) as int;
        proof {
            lemma_pow2_pos(1074);
            lemma2_to64();
            lemma2_to64_rest();
        }
        if self.is_nan() || self.is_negative() {
            return 0;
        }
        if !self.is_finite() {
            proof {
                flt::lemma_weight_split(2045, TWO53 as int);
                assert(2045 * TWO52 + TWO53 == INF_MAG);
                lemma_pow2_adds(971, 1074);
                lemma_pow2_strictly_increases(64, 971);
                let big = pow2(971) as int;
                assert(flt::weight(INF_MAG as int) == (TWO53 * big) * one) by (nonlinear_arith)
                    requires
                        flt::weight(INF_MAG as int) == TWO53 * pow2(2045),
                        pow2(2045) == big * one,
                ;
                lemma_div_by_multiple(TWO53 * big, one);
            }
            return u64::MAX;
        }
        let (sig, e) = arith::split(self.magnitude());
        let ghost w = flt::weight(self.mag());
        if e >= 1074 {
            proof {
                lemma_pow2_adds((e - 1074) as nat, 1074);
                let f = pow2((e - 1074) as nat) as int;
                assert(w == (sig * f) * one) by (nonlinear_arith)
                    requires
                        w == sig * pow2(e as nat),
                        pow2(e as nat) == f * one,
                ;
                lemma_div_by_multiple(sig * f, one);
            }
            if e - 1074 >= 12 {
                proof {
                    let f = pow2((e - 1074) as nat) as int;
                    if e - 1074 > 12 {
                        lemma_pow2_strictly_increases(12, (e - 1074) as nat);
                    }
                    assert(sig * f > u64::MAX) by (nonlinear_arith)
                        requires
                            sig >= TWO52,
                            f >= 4096,
                    ;
                }
                return u64::MAX;
            }
            let f: u128 = rounding::power_of_two(e - 1074);
            proof {
                lemma_pow2_strictly_increases((e - 1074) as nat, 12);
                assert(sig * f <= u64::MAX) by (nonlinear_arith)
                    requires
                        sig < TWO53,
                        f <= 2048,
                ;
            }
            (sig as u128 * f) as u64
        } else {
            let k: u32 = 1074 - e;
            proof {
                lemma_pow2_adds(e as nat, k as nat);
                lemma_pow2_pos(e as nat);
                lemma_pow2_pos(k as nat);
                let pe = pow2(e as nat) as int;
                let pk = pow2(k as nat) as int;
                lemma_div_denominator(w, pe, pk);
                lemma_div_by_multiple(sig as int, pe);
                assert(w / one == sig as int / pk);
            }
            if k >= 64 {
                proof {
                    if k > 64 {
                        lemma_pow2_strictly_increases(64, k as nat);
                    }
                    lemma_basic_div(sig as int, pow2(k as nat) as int);
                }
                0
            } else {
                let f: u128 = rounding::power_of_two(k);
                assert(0 <= sig as u128 / f <= sig) by (nonlinear_arith)
                    requires
                        f > 0,
                ;
                (sig as u128 / f) as u64
            }
        }
    }

    /// The number without its sign.
    pub fn abs(self) -> (r: Flt)
        ensures
            r == flt::signed(false, self.mag()),
    {
        Flt::build(false, self.magnitude())
    }
}

/// The quotient of two whole numbers, rounded once where they are below 2^53.
pub open spec fn ratio_of(n: int, d: int) -> Flt {
    of_nat(n).over(of_nat(d))
}

impl Flt {
    /// The quotient of two whole numbers: `ratio(5, 100)` is the double that
    /// is written 0.05.
    pub fn ratio(n: u64, d: u64) -> (r: Flt)
        ensures
            r == ratio_of(n as int, d as int),
    {
        Flt::from_u64(n).quotient(Flt::from_u64(d))
    }

    /// The whole part, as far as a byte holds it.
    pub open spec fn byte(self) -> int {
        if self.whole() > 255 {
            255
        } else {
            self.whole()
        }
    }

    /// The whole part, as far as a byte holds it.
    pub fn trunc_u8(self) -> (r: u8)
        ensures
            r == self.byte(),
    {
        let x: u64 = self.trunc_u64();
        if x > 255 {
            255
        } else {
            x as u8
        }
    }
}

} // verus!

//! Addition, subtraction, multiplication and division.
use vstd::arithmetic::div_mod::*;
use vstd::arithmetic::mul::*;
use vstd::arithmetic::power2::*;
use vstd::prelude::*;

use crate::flt;
use crate::flt::rounding;
use crate::flt::{Flt, INF_MAG, NAN_MAG, TWO52, TWO53};

verus! {

/// Exponent steps and significand of a finite magnitude.
pub(crate) fn split(mag: u64) -> (r: (u64, u32))
    requires
        mag < INF_MAG,
    ensures
        r.1 <= 2045,
        r.0 < TWO53,
        r.1 == 0 || r.0 >= TWO52,
        mag == r.1 * TWO52 + r.0,
        flt::weight(mag as int) == r.0 * pow2(r.1 as nat),
        mag > 0 ==> r.0 > 0,
{
    let field: u64 = mag / TWO52;
    let r: (u64, u32) = if field == 0 {
        (mag, 0)
    } else {
        (TWO52 + mag % TWO52, (field - 1) as u32)
    };
    proof {
        lemma_fundamental_div_mod(mag as int, TWO52 as int);
        flt::lemma_weight_split(r.1 as int, r.0 as int);
    }
    r
}

/// A value that the digits give exactly.
pub(crate) proof fn lemma_exact_digits(n: int, m: int, s: int)
    requires
        s >= 0,
        m >= 0,
        n == m * pow2(s as nat),
    ensures
        rounding::digits_of(n, 1, m, s, false),
{
    lemma2_to64();
    rounding::lemma_scales(s);
    lemma_pow2_pos(s as nat);
    let pu = rounding::up_scale(s);
    assert(pu == pow2(s as nat));
    assert(m * pu * 1 == n * 1 && n < (m + 1) * pu * 1 && n >= 0) by (nonlinear_arith)
        requires
            n == m * pu,
            pu > 0,
            m >= 0,
    ;
}

/// The leading digits of a sum or difference of numbers far apart.
proof fn lemma_far_digits(
    n: int,
    big: int,
    small: int,
    g: nat,
    eb: nat,
    lo: int,
    rem: int,
    add: bool,
    m: int,
)
    requires
        small == lo * pow2(g) + rem,
        0 <= rem < pow2(g),
        0 <= lo < big,
        add ==> n == big * pow2((eb + g) as nat) + small * pow2(eb),
        !add ==> n == big * pow2((eb + g) as nat) - small * pow2(eb),
        add ==> m == big + lo,
        !add ==> m == big - lo - if rem != 0 { 1int } else { 0 },
    ensures
        rounding::digits_of(n, 1, m, (eb + g) as int, rem != 0),
{
    let s = (eb + g) as int;
    let pg = pow2(g) as int;
    let pe = pow2(eb) as int;
    lemma2_to64();
    rounding::lemma_scales(s);
    lemma_pow2_pos(s as nat);
    lemma_pow2_pos(eb);
    lemma_pow2_adds(eb, g);
    let pu = rounding::up_scale(s);
    assert(pu == pe * pg);
    assert(small * pe == lo * pu + rem * pe) by (nonlinear_arith)
        requires
            small == lo * pg + rem,
            pu == pe * pg,
    ;
    let tail = rem * pe;
    assert(0 <= tail < pu && (rem == 0 <==> tail == 0)) by (nonlinear_arith)
        requires
            tail == rem * pe,
            0 <= rem < pg,
            pe > 0,
            pu == pe * pg,
    ;
    assert((big + lo) * pu == big * pu + lo * pu) by (nonlinear_arith);
    assert((big - lo) * pu == big * pu - lo * pu) by (nonlinear_arith);
    assert((big - lo - 1) * pu == big * pu - lo * pu - pu) by (nonlinear_arith);
    assert((m + 1) * pu == m * pu + pu) by (nonlinear_arith);
    assert(m * pu * 1 == m * pu && (m + 1) * pu * 1 == (m + 1) * pu);
    assert(m * pu >= 0) by (nonlinear_arith)
        requires
            m >= 0,
            pu > 0,
    ;
}

impl Flt {
    /// The rounded sum.
    pub fn sum(self, o: Flt) -> (r: Flt)
        ensures
            r == self.plus(o),
    {
        if self.is_nan() || o.is_nan() {
            return Flt::build(false, NAN_MAG);
        }
        if !self.is_finite() {
            if !o.is_finite() && self.is_negative() != o.is_negative() {
                return Flt::build(false, NAN_MAG);
            }
            return self;
        }
        if !o.is_finite() {
            return o;
        }
        if self.magnitude() >= o.magnitude() {
            Flt::sum_ordered(self, o)
        } else {
            Flt::sum_ordered(o, self)
        }
    }

    /// The rounded sum of two finite numbers, the first at least as large.
    fn sum_ordered(a: Flt, b: Flt) -> (r: Flt)
        requires
            a.finite(),
            b.finite(),
            a.mag() >= b.mag(),
        ensures
            r == a.plus(b),
            r == b.plus(a),
    {
        let ma: u64 = a.magnitude();
        let mb: u64 = b.magnitude();
        let same: bool = a.is_negative() == b.is_negative();
        let (sa, ea) = split(ma);
        let (sb, eb) = split(mb);
        let ghost wa = flt::weight(ma as int);
        let ghost wb = flt::weight(mb as int);
        let ghost n = if same {
            wa + wb
        } else {
            wa - wb
        };
        proof {
            flt::lemma_compare(a, b);
            flt::lemma_compare(b, a);
            lemma2_to64();
            lemma2_to64_rest();
            assert(ea >= eb) by {
                if ea < eb {
                    assert(ea * TWO52 + TWO53 <= eb * TWO52 + TWO52);
                }
            }
        }
        if ma == 0 {
            return Flt::build(a.is_negative() && b.is_negative(), 0);
        }
        if !same && ma == mb {
            return Flt::build(false, 0);
        }
        let diff: u32 = ea - eb;
        let mag: u64;
        if diff <= 64 {
            let f: u128 = rounding::power_of_two(diff);
            proof {
                lemma_pow2_adds(diff as nat, eb as nat);
                if diff < 64 {
                    lemma_pow2_strictly_increases(diff as nat, 64);
                }
                lemma_pow2_pos(diff as nat);
                assert(sa * f <= TWO53 * 0x1_0000_0000_0000_0000) by (nonlinear_arith)
                    requires
                        sa <= TWO53,
                        f <= 0x1_0000_0000_0000_0000,
                ;
                let pe = pow2(eb as nat) as int;
                lemma_pow2_pos(eb as nat);
                assert(wa == (sa * f) * pe) by (nonlinear_arith)
                    requires
                        wa == sa * pow2(ea as nat),
                        pow2(ea as nat) == f * pe,
                ;
                assert(wa + wb == (sa * f + sb) * pe && wa - wb == (sa * f - sb) * pe)
                    by (nonlinear_arith)
                    requires
                        wa == (sa * f) * pe,
                        wb == sb * pe,
                ;
                assert(!same ==> sa * f >= sb) by (nonlinear_arith)
                    requires
                        !same ==> (sa * f - sb) * pe > 0,
                        pe > 0,
                ;
            }
            let m: u128 = if same {
                sa as u128 * f + sb as u128
            } else {
                sa as u128 * f - sb as u128
            };
            proof {
                lemma_exact_digits(n, m as int, eb as int);
            }
            mag = rounding::round_mag(m, eb as i32, false, Ghost(n), Ghost(1));
        } else {
            let g: u32 = diff - 64;
            let big: u128 = sa as u128 * 0x1_0000_0000_0000_0000;
            let lo: u64;
            let rem: u64;
            if g < 64 {
                let f: u128 = rounding::power_of_two(g);
                proof {
                    lemma_pow2_pos(g as nat);
                    lemma_fundamental_div_mod(sb as int, f as int);
                    lemma_mul_is_commutative(f as int, sb as int / f as int);
                }
                assert(0 <= sb as u128 / f <= sb) by (nonlinear_arith)
                    requires
                        f > 0,
                ;
                lo = (sb as u128 / f) as u64;
                rem = (sb as u128 % f) as u64;
            } else {
                lo = 0;
                rem = sb;
                proof {
                    if g > 64 {
                        lemma_pow2_strictly_increases(64, g as nat);
                    }
                    assert(sb < pow2(g as nat));
                    assert(0 * pow2(g as nat) == 0);
                }
            }
            let m: u128 = if same {
                big + lo as u128
            } else if rem != 0 {
                big - lo as u128 - 1
            } else {
                big - lo as u128
            };
            proof {
                lemma_pow2_adds(64, (eb + g) as nat);
                assert(wa == big * pow2((eb + g) as nat)) by (nonlinear_arith)
                    requires
                        wa == sa * pow2(ea as nat),
                        pow2(ea as nat) == 0x1_0000_0000_0000_0000 * pow2((eb + g) as nat),
                        big == sa * 0x1_0000_0000_0000_0000,
                ;
                lemma_far_digits(
                    n,
                    big as int,
                    sb as int,
                    g as nat,
                    eb as nat,
                    lo as int,
                    rem as int,
                    same,
                    m as int,
                );
            }
            mag = rounding::round_mag(m, (eb + g) as i32, rem != 0, Ghost(n), Ghost(1));
        }
        proof {
            flt::lemma_nearest(n, 1, mag as int);
        }
        Flt::build(a.is_negative(), mag)
    }

    /// The rounded difference.
    pub fn difference(self, o: Flt) -> (r: Flt)
        ensures
            r == self.minus(o),
    {
        self.sum(o.negate())
    }
}

/// Scaling by `2^(ea + eb)`, stated against a denominator of `2^1074`.
proof fn lemma_product_digits(m: int, ea: int, eb: int, n: int)
    requires
        m >= 0,
        ea >= 0,
        eb >= 0,
        n == m * pow2((ea + eb) as nat),
    ensures
        rounding::digits_of(n, pow2(1074) as int, m, ea + eb - 1074, false),
{
    let s = ea + eb - 1074;
    let d = pow2(1074) as int;
    let pu = rounding::up_scale(s);
    let pd = rounding::up_scale(-s);
    lemma2_to64();
    lemma_pow2_pos(1074);
    lemma_pow2_pos((ea + eb) as nat);
    rounding::lemma_scales(s);
    rounding::lemma_scales(-s);
    assert(pow2((ea + eb) as nat) * pd == pu * d) by {
        if s > 0 {
            lemma_pow2_adds(s as nat, 1074);
        } else if s < 0 {
            lemma_pow2_adds((ea + eb) as nat, (-s) as nat);
        }
    }
    assert(m * pu * d == n * pd && (m + 1) * pu * d > n * pd && n >= 0) by (nonlinear_arith)
        requires
            n == m * pow2((ea + eb) as nat),
            pow2((ea + eb) as nat) * pd == pu * d,
            m >= 0,
            pow2((ea + eb) as nat) > 0,
            pu > 0,
            d > 0,
    ;
}

/// The digits of a quotient of significands are those of the quotient.
proof fn lemma_quotient_digits(sa: int, ea: int, sb: int, eb: int, k: int, q: int, rem: int)
    requires
        sa > 0,
        sb > 0,
        ea >= 0,
        eb >= 0,
        k >= 0,
        q >= 0,
        sa * pow2(k as nat) == q * sb + rem,
        0 <= rem < sb,
    ensures
        rounding::digits_of(
            (sa * pow2(ea as nat)) * pow2(1074),
            sb * pow2(eb as nat),
            q,
            ea - eb + 1074 - k,
            rem != 0,
        ),
{
    let s = ea - eb + 1074 - k;
    let pu = rounding::up_scale(s);
    let pd = rounding::up_scale(-s);
    let pb = pow2(eb as nat) as int;
    let pa = pow2(ea as nat) as int;
    let pk = pow2(k as nat) as int;
    let one = pow2(1074) as int;
    let n = (sa * pa) * one;
    let d = sb * pb;
    lemma2_to64();
    rounding::lemma_scales(s);
    rounding::lemma_scales(-s);
    lemma_pow2_pos(eb as nat);
    lemma_pow2_pos(ea as nat);
    lemma_pow2_pos(k as nat);
    lemma_pow2_pos(1074);
    lemma_pow2_adds(ea as nat, 1074);
    let whole = pow2((ea + 1074) as nat) as int;
    lemma_pow2_adds(k as nat, eb as nat);
    assert(whole * pd == pk * pb * pu) by {
        if s > 0 {
            lemma_pow2_adds((k + eb) as nat, s as nat);
        } else if s < 0 {
            lemma_pow2_adds((ea + 1074) as nat, (-s) as nat);
            assert(ea + 1074 - s == k + eb);
        } else {
            assert(ea + 1074 == k + eb);
        }
    }
    let c = pu * pb;
    assert(c > 0) by (nonlinear_arith)
        requires
            pu > 0,
            pb > 0,
            c == pu * pb,
    ;
    assert(n * pd == (sa * pk) * c) by {
        assert(n * pd == sa * ((pa * one) * pd)) by (nonlinear_arith)
            requires
                n == (sa * pa) * one,
        ;
        assert(sa * (pk * pb * pu) == (sa * pk) * c) by (nonlinear_arith)
            requires
                c == pu * pb,
        ;
    }
    assert(q * pu * d == (q * sb) * c && (q + 1) * pu * d == (q * sb + sb) * c) by (nonlinear_arith)
        requires
            c == pu * pb,
            d == sb * pb,
    ;
    let top = sa * pk;
    assert((q * sb) * c <= top * c && top * c < (q * sb + sb) * c && (rem == 0 <==> top * c == (q
        * sb) * c)) by (nonlinear_arith)
        requires
            top == q * sb + rem,
            0 <= rem < sb,
            c > 0,
    ;
    assert(d > 0) by (nonlinear_arith)
        requires
            sb > 0,
            pb > 0,
            d == sb * pb,
    ;
    assert(n >= 0) by (nonlinear_arith)
        requires
            sa > 0,
            pa > 0,
            one > 0,
            n == (sa * pa) * one,
    ;
}

impl Flt {
    /// The rounded product.
    pub fn product(self, o: Flt) -> (r: Flt)
        ensures
            r == self.times(o),
    {
        let neg: bool = self.is_negative() != o.is_negative();
        if self.is_nan() || o.is_nan() {
            return Flt::build(false, NAN_MAG);
        }
        if !self.is_finite() || !o.is_finite() {
            if self.magnitude() == 0 || o.magnitude() == 0 {
                return Flt::build(false, NAN_MAG);
            }
            return Flt::build(neg, INF_MAG);
        }
        let (sa, ea) = split(self.magnitude());
        let (sb, eb) = split(o.magnitude());
        let ghost n = flt::weight(self.mag()) * flt::weight(o.mag());
        proof {
            let pa = pow2(ea as nat) as int;
            let pb = pow2(eb as nat) as int;
            lemma_pow2_adds(ea as nat, eb as nat);
            assert(sa * sb < TWO53 * TWO53) by (nonlinear_arith)
                requires
                    sa < TWO53,
                    sb < TWO53,
            ;
            assert(n == (sa * sb) * (pa * pb)) by (nonlinear_arith)
                requires
                    n == (sa * pa) * (sb * pb),
            ;
            assert(sa * sb >= 0) by (nonlinear_arith);
            lemma_product_digits(sa * sb, ea as int, eb as int, n);
        }
        let m: u128 = sa as u128 * sb as u128;
        let mag: u64 = rounding::round_mag(
            m,
            ea as i32 + eb as i32 - 1074,
            false,
            Ghost(n),
            Ghost(pow2(1074) as int),
        );
        proof {
            flt::lemma_nearest(n, pow2(1074) as int, mag as int);
        }
        Flt::build(neg, mag)
    }

    /// The rounded quotient.
    pub fn quotient(self, o: Flt) -> (r: Flt)
        ensures
            r == self.over(o),
    {
        let neg: bool = self.is_negative() != o.is_negative();
        let ma: u64 = self.magnitude();
        let mb: u64 = o.magnitude();
        if ma > INF_MAG || mb > INF_MAG || (ma == INF_MAG && mb == INF_MAG) || (ma == 0 && mb
            == 0) {
            return Flt::build(false, NAN_MAG);
        }
        if ma == INF_MAG || mb == 0 {
            return Flt::build(neg, INF_MAG);
        }
        if mb == INF_MAG {
            return Flt::build(neg, 0);
        }
        let (sa, ea) = split(ma);
        let (sb, eb) = split(mb);
        let ghost n = flt::weight(self.mag()) * pow2(1074);
        let ghost d = flt::weight(o.mag());
        proof {
            flt::lemma_compare(self, o);
        }
        if ma == 0 {
            proof {
                assert(n == 0) by (nonlinear_arith)
                    requires
                        n == flt::weight(0) * pow2(1074),
                        flt::weight(0) == 0,
                ;
                assert(flt::rounds_to(n, d, 0));
                flt::lemma_nearest(n, d, 0);
            }
            return Flt::build(neg, 0);
        }
        let l: i32 = rounding::bit_len(sa as u128);
        proof {
            lemma2_to64();
            lemma2_to64_rest();
            if l > 53 {
                if l > 54 {
                    lemma_pow2_strictly_increases(53, (l - 1) as nat);
                }
            }
        }
        let k: i32 = 127 - l;
        let f: u128 = rounding::power_of_two(k as u32);
        proof {
            rounding::lemma_pow2_below_u128(127);
            lemma_pow2_adds(k as nat, l as nat);
            lemma_pow2_adds(k as nat, (l - 1) as nat);
            lemma_pow2_pos(k as nat);
            assert(sa * f < pow2(127) && sa * f >= pow2(126)) by (nonlinear_arith)
                requires
                    pow2((l - 1) as nat) <= sa < pow2(l as nat),
                    f > 0,
                    pow2(127) == f * pow2(l as nat),
                    pow2(126) == f * pow2((l - 1) as nat),
            ;
        }
        let num: u128 = sa as u128 * f;
        let q: u128 = num / sb as u128;
        let rem: u128 = num % sb as u128;
        proof {
            lemma_fundamental_div_mod(num as int, sb as int);
            lemma_mul_is_commutative(sb as int, q as int);
            lemma_pow2_adds(53, 73);
            assert(pow2(73) >= 2 * TWO53) by {
                lemma_pow2_strictly_increases(54, 73);
                lemma_pow2_unfold(54);
            }
            assert(q >= 2 * TWO53) by (nonlinear_arith)
                requires
                    num == q * sb + rem,
                    0 <= rem < sb,
                    sb <= TWO53,
                    num >= TWO53 * pow2(73),
                    pow2(73) >= 2 * TWO53,
            ;
            lemma_quotient_digits(
                sa as int,
                ea as int,
                sb as int,
                eb as int,
                k as int,
                q as int,
                rem as int,
            );
        }
        let mag: u64 = rounding::round_mag(
            q,
            ea as i32 - eb as i32 + 1074 - k,
            rem != 0,
            Ghost(n),
            Ghost(d),
        );
        proof {
            flt::lemma_nearest(n, d, mag as int);
        }
        Flt::build(neg, mag)
    }
}

} // verus!

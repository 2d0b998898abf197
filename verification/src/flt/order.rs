//! How rounding and the order of the doubles go together.
use vstd::arithmetic::div_mod::*;
use vstd::arithmetic::power2::*;
use vstd::prelude::*;

use crate::flt;
use crate::flt::convert;
use crate::flt::{Flt, INF_MAG, TWO52, TWO53};

verus! {

/// Searches upward from `m` for the double nearest to `n / d`.
proof fn lemma_search(n: int, d: int, m: int) -> (r: int)
    requires
        n >= 0,
        d > 0,
        0 <= m <= INF_MAG,
        m > 0 ==> (flt::weight(m - 1) + flt::weight(m)) * d <= 2 * n,
        m > 0 && (flt::weight(m - 1) + flt::weight(m)) * d == 2 * n ==> m % 2 == 0,
    ensures
        flt::rounds_to(n, d, r),
    decreases INF_MAG - m,
{
    let above = (flt::weight(m) + flt::weight(m + 1)) * d;
    if m == INF_MAG || 2 * n < above || (2 * n == above && m % 2 == 0) {
        m
    } else {
        lemma_search(n, d, m + 1)
    }
}

/// Every quotient has a nearest double.
pub proof fn lemma_nearest_exists(n: int, d: int)
    requires
        n >= 0,
        d > 0,
    ensures
        flt::rounds_to(n, d, flt::nearest(n, d)),
{
    let r = lemma_search(n, d, 0);
}

/// A normal double lies above the one before it by less than 2^-52 of
/// itself.
pub proof fn lemma_gap(m: int)
    requires
        m > TWO52,
    ensures
        (flt::weight(m) - flt::weight(m - 1)) * TWO52 < flt::weight(m),
{
    let step = TWO52 as int;
    let e = m / step - 1;
    let q = step + m % step;
    lemma_fundamental_div_mod(m, step);
    flt::lemma_weight_split(e, q);
    lemma_pow2_pos(e as nat);
    let p = pow2(e as nat) as int;
    if q > step || e == 0 {
        flt::lemma_weight_split(e, q - 1);
        assert((q * p - (q - 1) * p) * step < q * p) by (nonlinear_arith)
            requires
                q > step,
                p > 0,
        ;
    } else {
        flt::lemma_weight_split(e - 1, TWO53 - 1);
        lemma_pow2_unfold(e as nat);
        lemma_pow2_pos((e - 1) as nat);
        let h = pow2((e - 1) as nat) as int;
        assert((q * p - (TWO53 - 1) * h) * step < q * p) by (nonlinear_arith)
            requires
                p == 2 * h,
                q == step,
                TWO53 == 2 * step,
                step == TWO52,
                h > 0,
        ;
    }
}

/// Rounding keeps the order.
pub proof fn lemma_nearest_monotone(a: int, b: int, d: int)
    requires
        0 <= a <= b,
        d > 0,
    ensures
        0 <= flt::nearest(a, d) <= flt::nearest(b, d) <= INF_MAG,
{
    lemma_nearest_exists(a, d);
    lemma_nearest_exists(b, d);
    let k = flt::nearest(a, d);
    let l = flt::nearest(b, d);
    if l < k {
        let hi = flt::weight(k - 1) + flt::weight(k);
        let lo = flt::weight(l) + flt::weight(l + 1);
        if l + 1 < k {
            flt::lemma_weight_lt(l, k - 1);
            flt::lemma_weight_lt(l + 1, k);
            assert(lo * d < hi * d) by (nonlinear_arith)
                requires
                    lo < hi,
                    d > 0,
            ;
        }
    }
}

/// The value that the exact sum `x` is rounded to.
spec fn rounded(x: int) -> int {
    if x < 0 {
        -flt::weight(flt::nearest(-x, 1))
    } else {
        flt::weight(flt::nearest(x, 1))
    }
}

proof fn lemma_rounded_monotone(a: int, b: int)
    requires
        a <= b,
    ensures
        rounded(a) <= rounded(b),
{
    if a < 0 && b < 0 {
        lemma_nearest_monotone(-b, -a, 1);
        let k = flt::nearest(-b, 1);
        let l = flt::nearest(-a, 1);
        if k < l {
            flt::lemma_weight_lt(k, l);
        }
    } else if a < 0 {
        lemma_nearest_exists(-a, 1);
        lemma_nearest_exists(b, 1);
        flt::lemma_weight_step(flt::nearest(-a, 1));
        flt::lemma_weight_step(flt::nearest(b, 1));
    } else {
        lemma_nearest_monotone(a, b, 1);
        let k = flt::nearest(a, 1);
        let l = flt::nearest(b, 1);
        if k < l {
            flt::lemma_weight_lt(k, l);
        }
    }
}

proof fn lemma_signed(neg: bool, mag: int)
    requires
        0 <= mag <= INF_MAG,
    ensures
        flt::signed(neg, mag).mag() == mag,
        flt::signed(neg, mag).neg() == neg,
{
}

/// The value of a finite sum.
proof fn lemma_sum_value(a: Flt, b: Flt)
    requires
        a.finite(),
        b.finite(),
    ensures
        !a.plus(b).nan(),
        a.plus(b).val() == rounded(a.val() + b.val()),
{
    let x = a.val() + b.val();
    reveal(flt::weight);
    if x == 0 {
        lemma_signed(a.neg() && b.neg(), 0);
        convert::lemma_exact(0, 1);
    } else if x < 0 {
        lemma_nearest_exists(-x, 1);
        lemma_signed(true, flt::nearest(-x, 1));
    } else {
        lemma_nearest_exists(x, 1);
        lemma_signed(false, flt::nearest(x, 1));
    }
}

/// Zero has the value 0, and infinity lies above it.
pub proof fn lemma_zero()
    ensures
        Flt::zero().val() == 0,
        Flt::zero().finite(),
        flt::weight(INF_MAG as int) > 0,
{
    reveal(flt::weight);
    flt::lemma_weight_lt(0, INF_MAG as int);
}

/// Adding a number that is not negative never takes away.
pub proof fn sum_never_shrinks(a: Flt, b: Flt)
    requires
        !a.nan(),
        Flt::zero().at_most(b),
        a.finite() || b.finite() || !a.neg(),
    ensures
        a.at_most(a.plus(b)),
{
    lemma_zero();
    flt::lemma_weight_step(a.mag());
    if a.finite() && b.finite() {
        lemma_sum_value(a, b);
        lemma_rounded_monotone(a.val(), a.val() + b.val());
        convert::lemma_exact(a.mag(), 1);
        assert(flt::weight(a.mag()) * 1 == flt::weight(a.mag()));
    } else if a.finite() {
        flt::lemma_weight_lt(a.mag(), INF_MAG as int);
    }
}

/// Taking away a number that is not negative never adds.
pub proof fn difference_never_grows(a: Flt, b: Flt)
    requires
        a.finite(),
        b.finite(),
        Flt::zero().at_most(b),
    ensures
        a.minus(b).at_most(a),
{
    lemma_zero();
    lemma_signed(!b.neg(), b.mag());
    flt::lemma_weight_step(a.mag());
    flt::lemma_weight_step(b.mag());
    assert(b.negated().val() == -b.val());
    lemma_sum_value(a, b.negated());
    lemma_rounded_monotone(a.val() - b.val(), a.val());
    convert::lemma_exact(a.mag(), 1);
    assert(flt::weight(a.mag()) * 1 == flt::weight(a.mag()));
}

/// One weighs 2^1074.
pub proof fn lemma_one()
    ensures
        Flt::one().val() == pow2(1074),
        Flt::one().finite(),
{
    lemma2_to64();
    lemma2_to64_rest();
    flt::lemma_weight_split(1022, TWO52 as int);
    lemma_pow2_adds(52, 1022);
    assert(1022 * TWO52 + TWO52 == Flt::one().bits);
}

/// The quotient of a whole number and one that is at least as large lies
/// between 0 and 1.
pub proof fn ratio_is_at_most_one(n: int, d: int)
    requires
        0 <= n <= d < TWO53,
        0 < d,
    ensures
        convert::ratio_of(n, d).finite(),
        Flt::zero().at_most(convert::ratio_of(n, d)),
        convert::ratio_of(n, d).at_most(Flt::one()),
{
    let one = pow2(1074) as int;
    lemma_pow2_pos(1074);
    lemma_zero();
    lemma_one();
    let mn = convert::lemma_representable(n, 1074);
    let md = convert::lemma_representable(d, 1074);
    convert::lemma_exact(mn, 1);
    convert::lemma_exact(md, 1);
    lemma_signed(false, mn);
    lemma_signed(false, md);
    assert(convert::of_nat(n) == flt::signed(false, mn));
    assert(convert::of_nat(d) == flt::signed(false, md));
    let a = n * one * one;
    let den = d * one;
    assert(den > 0 && 0 <= a && a <= one * den) by (nonlinear_arith)
        requires
            a == n * one * one,
            den == d * one,
            0 <= n <= d,
            0 < d,
            one > 0,
    ;
    if md == 0 {
        reveal(flt::weight);
    }
    lemma_nearest_monotone(a, one * den, den);
    let m1 = Flt::one().mag();
    convert::lemma_exact(m1, den);
    assert(flt::nearest(one * den, den) == m1);
    let q = flt::nearest(a, den);
    lemma_signed(false, q);
    flt::lemma_weight_step(q);
    if q < m1 {
        flt::lemma_weight_lt(q, m1);
    }
}

/// A sum grows with what is added.
pub proof fn sum_is_monotone(a: Flt, b: Flt, c: Flt)
    requires
        a.finite(),
        b.finite(),
        c.finite(),
        b.at_most(c),
    ensures
        a.plus(b).at_most(a.plus(c)),
{
    lemma_sum_value(a, b);
    lemma_sum_value(a, c);
    lemma_rounded_monotone(a.val() + b.val(), a.val() + c.val());
}

/// Adding zero changes no value.
pub proof fn lemma_plus_zero(a: Flt)
    requires
        !a.nan(),
    ensures
        !a.plus(Flt::zero()).nan(),
        a.plus(Flt::zero()).val() == a.val(),
        a.plus(Flt::zero()).finite() == a.finite(),
{
    lemma_zero();
    if a.finite() {
        flt::lemma_weight_step(a.mag());
        lemma_sum_value(a, Flt::zero());
        convert::lemma_exact(a.mag(), 1);
        assert(flt::weight(a.mag()) * 1 == flt::weight(a.mag()));
        let r = a.plus(Flt::zero());
        if a.val() == 0 {
            lemma_signed(a.neg() && Flt::zero().neg(), 0);
        } else {
            lemma_signed(a.neg(), a.mag());
        }
    }
}

/// Half of nothing, over any stretch, is nothing.
pub proof fn lemma_no_slope(x: Flt)
    requires
        x.finite(),
        Flt::zero().at_most(x),
    ensures
        Flt::half().times(Flt::zero()).times(x).times(x) == Flt::zero(),
{
    lemma_zero();
    lemma_positive(x);
    lemma_pow2_pos(1074);
    let d = pow2(1074) as int;
    lemma_zero_rounds(d);
    flt::lemma_weight_step(x.mag());
    flt::lemma_weight_step(Flt::half().mag());
    assert(flt::weight(Flt::half().mag()) * flt::weight(0) == 0) by (nonlinear_arith)
        requires
            flt::weight(0) == 0,
    ;
    assert(flt::weight(0) * flt::weight(x.mag()) == 0) by (nonlinear_arith)
        requires
            flt::weight(0) == 0,
    ;
    assert(Flt::half().times(Flt::zero()) == Flt::zero());
}

/// Nothing, times a positive number, is nothing.
pub proof fn lemma_zero_times(x: Flt)
    requires
        x.finite(),
        Flt::zero().less(x),
    ensures
        Flt::zero().times(x) == Flt::zero(),
{
    lemma_zero();
    flt::lemma_weight_step(x.mag());
    lemma_pow2_pos(1074);
    lemma_zero_rounds(pow2(1074) as int);
    assert(flt::weight(0) * flt::weight(x.mag()) == 0) by (nonlinear_arith)
        requires
            flt::weight(0) == 0,
    ;
}

/// Sixty is finite and positive: 60 times one.
pub proof fn lemma_sixty()
    ensures
        Flt::sixty().finite(),
        Flt::zero().less(Flt::sixty()),
        Flt::sixty().val() == 60 * pow2(1074),
{
    lemma_zero();
    let q = TWO52 + 0xE_0000_0000_0000;
    flt::lemma_weight_split(1027, q);
    assert(1027 * TWO52 + q == Flt::sixty().bits);
    lemma2_to64();
    lemma2_to64_rest();
    lemma_pow2_adds(47, 1027);
    lemma_pow2_pos(1074);
    assert(q * pow2(1027) == 60 * pow2(1074)) by (nonlinear_arith)
        requires
            q == 60 * pow2(47),
            pow2(47) * pow2(1027) == pow2(1074),
    ;
}

/// The least slope that counts is positive.
pub proof fn lemma_tiny()
    ensures
        Flt::zero().less(Flt::tiny()),
{
    lemma_zero();
    flt::lemma_weight_lt(0, Flt::tiny().mag());
}

/// Adding nothing to a positive number, or taking nothing from it, leaves it.
pub proof fn lemma_nothing_added(x: Flt)
    requires
        x.finite(),
        Flt::zero().less(x),
    ensures
        Flt::zero().plus(x) == x,
        x.plus(Flt::zero()) == x,
        x.minus(Flt::zero()) == x,
{
    lemma_zero();
    lemma_positive(x);
    lemma_negated(Flt::zero());
    convert::lemma_exact(x.mag(), 1);
    assert(flt::weight(x.mag()) * 1 == flt::weight(x.mag()));
    assert(!x.neg());
    assert(flt::signed(false, x.mag()) == x);
}

/// Turning the sign turns the value.
pub proof fn lemma_negated(a: Flt)
    requires
        !a.nan(),
    ensures
        a.negated().val() == -a.val(),
        a.negated().finite() == a.finite(),
        !a.negated().nan(),
{
    lemma_signed(!a.neg(), a.mag());
}

/// A number that weighs no more than a finite double is finite.
pub proof fn lemma_below_top(a: Flt, m: int)
    requires
        !a.nan(),
        0 <= m < INF_MAG,
        a.val() == flt::weight(m),
    ensures
        a.finite(),
{
    flt::lemma_weight_step(m);
    flt::lemma_weight_step(a.mag());
    flt::lemma_weight_lt(m, INF_MAG as int);
}

/// Nothing lies above infinity.
pub proof fn lemma_top(a: Flt)
    requires
        !a.nan(),
    ensures
        a.val() <= flt::weight(INF_MAG as int),
{
    flt::lemma_weight_step(a.mag());
    if a.mag() < INF_MAG {
        flt::lemma_weight_lt(a.mag(), INF_MAG as int);
    }
}

/// A sum with a finite number grows with the other, which may be infinite.
pub proof fn sum_grows(a: Flt, b: Flt, c: Flt)
    requires
        a.finite(),
        Flt::zero().at_most(b),
        b.at_most(c),
    ensures
        a.plus(b).at_most(a.plus(c)),
{
    lemma_zero();
    lemma_positive(b);
    lemma_positive(c);
    if c.finite() {
        lemma_finite_below(b, c);
        sum_is_monotone(a, b, c);
    } else if b.finite() {
        lemma_sum_value(a, b);
        lemma_top(a.plus(b));
    }
}

/// Sums do not depend on the order.
pub proof fn lemma_plus_commutes(a: Flt, b: Flt)
    requires
        a.finite(),
        b.finite(),
    ensures
        a.plus(b) == b.plus(a),
{
}

/// The value of a finite product of two numbers that are not negative.
pub proof fn lemma_product_value(a: Flt, b: Flt)
    requires
        a.finite(),
        b.finite(),
        a.val() >= 0,
        b.val() >= 0,
    ensures
        !a.times(b).nan(),
        a.times(b).val() == flt::weight(flt::nearest(a.val() * b.val(), pow2(1074) as int)),
        a.val() * b.val() >= 0,
{
    lemma_pow2_pos(1074);
    lemma_positive(a);
    lemma_positive(b);
    let n = flt::weight(a.mag()) * flt::weight(b.mag());
    let d = pow2(1074) as int;
    assert(n >= 0) by (nonlinear_arith)
        requires
            flt::weight(a.mag()) >= 0,
            flt::weight(b.mag()) >= 0,
            n == flt::weight(a.mag()) * flt::weight(b.mag()),
    ;
    lemma_nearest_exists(n, d);
    let neg = a.neg() != b.neg();
    lemma_signed(neg, flt::nearest(n, d));
    if neg {
        // One of the two is a negative zero.
        assert(n == 0) by (nonlinear_arith)
            requires
                flt::weight(a.mag()) == 0 || flt::weight(b.mag()) == 0,
                n == flt::weight(a.mag()) * flt::weight(b.mag()),
        ;
        lemma_zero_rounds(d);
    }
}

/// A number that is not below zero weighs its value.
pub proof fn lemma_positive(a: Flt)
    requires
        !a.nan(),
        a.val() >= 0,
    ensures
        flt::weight(a.mag()) == a.val(),
        a.neg() ==> a.val() == 0,
{
    flt::lemma_weight_step(a.mag());
}

/// Zero is rounded to zero.
pub proof fn lemma_zero_rounds(d: int)
    requires
        d > 0,
    ensures
        flt::nearest(0, d) == 0,
        flt::weight(0) == 0,
{
    reveal(flt::weight);
    convert::lemma_exact(0, d);
    assert(flt::weight(0) * d == 0) by (nonlinear_arith)
        requires
            flt::weight(0) == 0,
    ;
}

/// A product with a number that is not negative grows with the other factor.
pub proof fn product_is_monotone(a: Flt, b: Flt, c: Flt)
    requires
        a.finite(),
        b.finite(),
        c.finite(),
        Flt::zero().at_most(a),
        Flt::zero().at_most(b),
        b.at_most(c),
    ensures
        Flt::zero().at_most(a.times(b)),
        a.times(b).at_most(a.times(c)),
{
    lemma_zero();
    lemma_pow2_pos(1074);
    lemma_product_value(a, b);
    lemma_product_value(a, c);
    let d = pow2(1074) as int;
    let x = a.val() * b.val();
    let y = a.val() * c.val();
    assert(x <= y) by (nonlinear_arith)
        requires
            a.val() >= 0,
            b.val() <= c.val(),
            x == a.val() * b.val(),
            y == a.val() * c.val(),
    ;
    lemma_nearest_monotone(x, y, d);
    let k = flt::nearest(x, d);
    let l = flt::nearest(y, d);
    flt::lemma_weight_step(k);
    if k < l {
        flt::lemma_weight_lt(k, l);
    }
}

/// A quotient by a positive number grows with what is divided.
pub proof fn quotient_is_monotone(b: Flt, c: Flt, d: Flt)
    requires
        !b.nan(),
        !c.nan(),
        d.finite(),
        Flt::zero().less(d),
        Flt::zero().at_most(b),
        b.at_most(c),
    ensures
        Flt::zero().at_most(b.over(d)),
        b.over(d).at_most(c.over(d)),
{
    lemma_zero();
    lemma_positive(b);
    lemma_positive(c);
    lemma_positive(d);
    flt::lemma_weight_step(d.mag());
    lemma_quotient_value(c, d);
    lemma_quotient_value(b, d);
    if c.finite() {
        lemma_finite_below(b, c);
        let m = pow2(1074) as int;
        lemma_pow2_pos(1074);
        assert(0 <= b.val() * m <= c.val() * m) by (nonlinear_arith)
            requires
                0 <= b.val() <= c.val(),
                m > 0,
        ;
        lemma_nearest_monotone(b.val() * m, c.val() * m, d.val());
        let k = flt::nearest(b.val() * m, d.val());
        let l = flt::nearest(c.val() * m, d.val());
        flt::lemma_weight_step(k);
        if k < l {
            flt::lemma_weight_lt(k, l);
        }
    } else if b.finite() {
        let m = pow2(1074) as int;
        lemma_pow2_pos(1074);
        assert(b.val() * m >= 0) by (nonlinear_arith)
            requires
                b.val() >= 0,
                m > 0,
        ;
        lemma_nearest_exists(b.val() * m, d.val());
        let k = flt::nearest(b.val() * m, d.val());
        flt::lemma_weight_step(k);
        if k < INF_MAG {
            flt::lemma_weight_lt(k, INF_MAG as int);
        }
    }
}

/// A number at most as large as a finite one that is not negative is finite
/// too, unless it is negative.
pub proof fn lemma_finite_below(b: Flt, c: Flt)
    requires
        !b.nan(),
        c.finite(),
        b.val() >= 0,
        b.val() <= c.val(),
    ensures
        b.finite(),
{
    lemma_positive(b);
    flt::lemma_weight_step(c.mag());
    if b.infinite() {
        flt::lemma_weight_lt(c.mag(), INF_MAG as int);
    }
}

/// The value of a quotient of a number that is not negative by a positive
/// finite one.
pub proof fn lemma_quotient_value(a: Flt, d: Flt)
    requires
        !a.nan(),
        d.finite(),
        a.val() >= 0,
        d.val() > 0,
    ensures
        !a.over(d).nan(),
        a.finite() ==> a.over(d).val() == flt::weight(
            flt::nearest(a.val() * pow2(1074), d.val()),
        ),
        a.infinite() ==> a.over(d).val() == flt::weight(INF_MAG as int),
        a.over(d).val() >= 0,
{
    lemma_positive(a);
    lemma_positive(d);
    reveal(flt::weight);
    flt::lemma_weight_step(a.mag());
    flt::lemma_weight_step(d.mag());
    flt::lemma_weight_step(INF_MAG as int);
    assert(d.mag() != 0);
    assert(!d.neg());
    if a.infinite() {
        lemma_zero();
        lemma_signed(false, INF_MAG as int);
    } else {
        let n = flt::weight(a.mag()) * pow2(1074);
        lemma_pow2_pos(1074);
        assert(n >= 0) by (nonlinear_arith)
            requires
                flt::weight(a.mag()) >= 0,
                pow2(1074) > 0,
                n == flt::weight(a.mag()) * pow2(1074),
        ;
        lemma_nearest_exists(n, flt::weight(d.mag()));
        let k = flt::nearest(n, flt::weight(d.mag()));
        flt::lemma_weight_step(k);
        lemma_signed(a.neg(), k);
        if a.neg() {
            assert(n == 0) by (nonlinear_arith)
                requires
                    flt::weight(a.mag()) == 0,
                    n == flt::weight(a.mag()) * pow2(1074),
            ;
            lemma_zero_rounds(flt::weight(d.mag()));
        }
    }
}

/// The sum of a finite number and its negative is +0.
pub proof fn lemma_minus_self(a: Flt)
    requires
        a.finite(),
    ensures
        a.minus(a) == Flt::zero(),
{
    flt::lemma_weight_step(a.mag());
    lemma_signed(!a.neg(), a.mag());
}

/// Zero divided by a positive finite number is zero.
pub proof fn lemma_zero_over(d: Flt)
    requires
        d.finite(),
        Flt::zero().less(d),
    ensures
        Flt::zero().over(d) == Flt::zero(),
{
    lemma_zero();
    flt::lemma_weight_step(d.mag());
    reveal(flt::weight);
    convert::lemma_exact(0, flt::weight(d.mag()));
    assert(flt::weight(0) * pow2(1074) == 0) by (nonlinear_arith)
        requires
            flt::weight(0) == 0,
    ;
    assert(flt::weight(0) * flt::weight(d.mag()) == 0) by (nonlinear_arith)
        requires
            flt::weight(0) == 0,
    ;
}

/// The total order agrees with the order of values.
pub proof fn lemma_rank_orders(a: Flt, b: Flt)
    requires
        !a.nan(),
        !b.nan(),
        a.rank() <= b.rank(),
    ensures
        a.at_most(b),
{
    flt::lemma_weight_step(a.mag());
    flt::lemma_weight_step(b.mag());
    if a.mag() < b.mag() {
        flt::lemma_weight_lt(a.mag(), b.mag());
    }
    if b.mag() < a.mag() {
        flt::lemma_weight_lt(b.mag(), a.mag());
    }
}

/// The larger of two numbers is at least either of them.
pub proof fn larger_bounds(a: Flt, b: Flt)
    requires
        !b.nan(),
    ensures
        !a.larger(b).nan(),
        b.at_most(a.larger(b)),
        !a.nan() ==> a.at_most(a.larger(b)),
{
}

} // verus!

//! How far a rounded result is from the exact one.
use vstd::arithmetic::div_mod::*;
use vstd::arithmetic::power2::*;
use vstd::prelude::*;

use crate::flt;
use crate::flt::order;
use crate::flt::{Flt, INF_MAG, TWO52, TWO53};

verus! {

/// `x` and `y` differ by no more than `k` parts in 2^53 of `y`.
pub open spec fn within(x: int, y: int, k: int) -> bool {
    &&& x * TWO53 <= y * (TWO53 + k)
    &&& y * (TWO53 - k) <= x * TWO53
}

/// Two magnitudes above the subnormal ones are close together: the next one
/// lies no more than 2^-52 of its value above a double.
proof fn lemma_step_above(m: int)
    requires
        m >= TWO52,
    ensures
        (flt::weight(m + 1) - flt::weight(m)) * TWO52 <= flt::weight(m),
{
    let step = TWO52 as int;
    let e = m / step - 1;
    let q = step + m % step;
    lemma_fundamental_div_mod(m, step);
    assert(m / step >= 1) by (nonlinear_arith)
        requires
            m >= step,
            step > 0,
            m == step * (m / step) + m % step,
            0 <= m % step < step,
    ;
    assert(m == e * TWO52 + q);
    flt::lemma_weight_split(e, q);
    flt::lemma_weight_split(e, q + 1);
    lemma_pow2_pos(e as nat);
    let p = pow2(e as nat) as int;
    assert((q + 1) * p - q * p == p) by (nonlinear_arith);
    assert(p * TWO52 <= q * p) by (nonlinear_arith)
        requires
            q >= TWO52,
            p > 0,
    ;
}

/// The double nearest to a quotient that is neither tiny nor huge is within
/// one part in 2^53 of it.
pub proof fn lemma_relative(n: int, d: int)
    requires
        d > 0,
        pow2(60) * d <= n <= pow2(2090) * d,
    ensures
        TWO52 < flt::nearest(n, d) < INF_MAG,
        flt::weight(flt::nearest(n, d)) > 0,
        within(n, flt::weight(flt::nearest(n, d)) * d, 1),
{
    lemma2_to64();
    lemma2_to64_rest();
    lemma_pow2_pos(60);
    assert(n >= 0) by (nonlinear_arith)
        requires
            pow2(60) * d <= n,
            pow2(60) > 0,
            d > 0,
    ;
    order::lemma_nearest_exists(n, d);
    let m = flt::nearest(n, d);
    let w = flt::weight(m);
    assert(m > TWO52) by {
        if m <= TWO52 {
            flt::lemma_weight_split(0, TWO52 as int);
            flt::lemma_weight_split(0, TWO52 + 1);
            let a = w + flt::weight(m + 1);
            if m < TWO52 {
                flt::lemma_weight_lt(m, TWO52 as int);
                flt::lemma_weight_lt(m + 1, TWO52 + 1);
            }
            assert(a <= 2 * TWO52 + 1);
            assert(a * d < 2 * (pow2(60) * d)) by (nonlinear_arith)
                requires
                    a <= 2 * TWO52 + 1,
                    pow2(60) == 0x1000_0000_0000_0000,
                    TWO52 == 0x10_0000_0000_0000,
                    d > 0,
            ;
        }
    }
    assert(m < INF_MAG) by {
        if m == INF_MAG {
            flt::lemma_weight_split(2045, TWO53 as int);
            assert(2045 * TWO52 + TWO53 == INF_MAG);
            flt::lemma_weight_lt(0, m - 1);
            lemma_pow2_adds(53, 2045);
            lemma_pow2_strictly_increases(2091, 2098);
            lemma_pow2_unfold(2091);
            assert(w == pow2(2098));
            let b = flt::weight(m - 1) + w;
            assert(b * d > 2 * (pow2(2090) * d)) by (nonlinear_arith)
                requires
                    b > pow2(2091),
                    pow2(2091) == 2 * pow2(2090),
                    d > 0,
            ;
        }
    }
    lemma_step_above(m);
    order::lemma_gap(m);
    flt::lemma_weight_step(m);
    flt::lemma_weight_lt(0, m);
    let up = flt::weight(m + 1) - w;
    let down = w - flt::weight(m - 1);
    let y = w * d;
    assert(n * TWO53 <= y * (TWO53 + 1)) by (nonlinear_arith)
        requires
            2 * n <= (w + (w + up)) * d,
            up * TWO52 <= w,
            y == w * d,
            d > 0,
            TWO53 == 2 * TWO52,
            TWO52 > 0,
    {
        assert(2 * n <= 2 * y + up * d);
        assert(2 * n * TWO52 <= 2 * y * TWO52 + up * d * TWO52);
        assert((up * TWO52) * d <= w * d);
    }
    assert(y * (TWO53 - 1) <= n * TWO53) by (nonlinear_arith)
        requires
            ((w - down) + w) * d <= 2 * n,
            down * TWO52 < w,
            y == w * d,
            d > 0,
            TWO53 == 2 * TWO52,
            TWO52 > 0,
    {
        assert(2 * y - down * d <= 2 * n);
        assert(2 * y * TWO52 - down * d * TWO52 <= 2 * n * TWO52);
        assert((down * TWO52) * d <= w * d);
    }
}

/// Errors add up, and a little more.
pub proof fn lemma_within_adds(x: int, y: int, z: int, k: int)
    requires
        0 <= k <= 100,
        y >= 0,
        z >= 0,
        within(x, y, k),
        within(y, z, 1),
    ensures
        within(x, z, k + 2),
{
    let n = TWO53 as int;
    assert(x * n <= z * (n + (k + 2))) by (nonlinear_arith)
        requires
            x * n <= y * (n + k),
            y * n <= z * (n + 1),
            z >= 0,
            0 <= k <= 100,
            n == 0x20_0000_0000_0000,
    {
        assert(x * n * n <= y * (n + k) * n);
        assert(y * (n + k) * n == (y * n) * (n + k));
        assert((y * n) * (n + k) <= (z * (n + 1)) * (n + k));
        assert((n + 1) * (n + k) <= n * (n + (k + 2)));
        assert((z * (n + 1)) * (n + k) == z * ((n + 1) * (n + k)));
        assert(z * ((n + 1) * (n + k)) <= z * (n * (n + (k + 2))));
        assert(z * (n * (n + (k + 2))) == (z * (n + (k + 2))) * n);
        assert((x * n) * n <= (z * (n + (k + 2))) * n);
    }
    assert(z * (n - (k + 2)) <= x * n) by (nonlinear_arith)
        requires
            y * (n - k) <= x * n,
            z * (n - 1) <= y * n,
            z >= 0,
            0 <= k <= 100,
            n == 0x20_0000_0000_0000,
    {
        assert(y * (n - k) * n <= x * n * n);
        assert(y * (n - k) * n == (y * n) * (n - k));
        assert((y * n) * (n - k) >= (z * (n - 1)) * (n - k));
        assert((n - 1) * (n - k) >= n * (n - (k + 2)));
        assert((z * (n - 1)) * (n - k) == z * ((n - 1) * (n - k)));
        assert(z * ((n - 1) * (n - k)) >= z * (n * (n - (k + 2))));
        assert(z * (n * (n - (k + 2))) == (z * (n - (k + 2))) * n);
        assert((z * (n - (k + 2))) * n <= (x * n) * n);
    }
}

/// A common factor does not change how far two numbers are apart.
pub proof fn lemma_within_scales(x: int, y: int, f: int, k: int)
    requires
        f > 0,
    ensures
        within(x, y, k) <==> within(x * f, y * f, k),
{
    let n = TWO53 as int;
    assert((x * n <= y * (n + k)) <==> (x * f * n <= y * f * (n + k))) by (nonlinear_arith)
        requires
            f > 0,
    {
        assert(x * f * n == (x * n) * f);
        assert(y * f * (n + k) == (y * (n + k)) * f);
    }
    assert((y * (n - k) <= x * n) <==> (y * f * (n - k) <= x * f * n)) by (nonlinear_arith)
        requires
            f > 0,
    {
        assert(x * f * n == (x * n) * f);
        assert(y * f * (n - k) == (y * (n - k)) * f);
    }
}

/// Numbers within 7 parts in 2^53 differ by no more than 2^-50 of the first.
pub proof fn lemma_within_seven(x: int, y: int)
    requires
        x >= 0,
        y >= 0,
        within(x, y, 7),
    ensures
        (x - y) * pow2(50) <= x,
        (y - x) * pow2(50) <= x,
{
    lemma2_to64();
    lemma2_to64_rest();
    let n = TWO53 as int;
    assert(7 * y <= 8 * x) by (nonlinear_arith)
        requires
            y * (n - 7) <= x * n,
            x >= 0,
            y >= 0,
            n == 0x20_0000_0000_0000,
    ;
    assert((x - y) * n <= 7 * y) by (nonlinear_arith)
        requires
            x * n <= y * (n + 7),
    ;
    assert((y - x) * n <= 7 * y) by (nonlinear_arith)
        requires
            y * (n - 7) <= x * n,
    ;
    assert((x - y) * n == 8 * ((x - y) * pow2(50))) by (nonlinear_arith)
        requires
            n == 8 * pow2(50),
    ;
    assert((y - x) * n == 8 * ((y - x) * pow2(50))) by (nonlinear_arith)
        requires
            n == 8 * pow2(50),
    ;
}

/// Products of bounded factors are bounded.
pub proof fn lemma_product_range(a: int, b: int, i: nat, j: nat, k: nat, l: nat)
    requires
        pow2(i) <= a <= pow2(j),
        pow2(k) <= b <= pow2(l),
    ensures
        pow2(i + k) <= a * b <= pow2(j + l),
{
    lemma_pow2_adds(i, k);
    lemma_pow2_adds(j, l);
    lemma_pow2_pos(i);
    lemma_pow2_pos(k);
    assert(pow2(i) * pow2(k) <= a * b <= pow2(j) * pow2(l)) by (nonlinear_arith)
        requires
            0 < pow2(i) <= a <= pow2(j),
            0 < pow2(k) <= b <= pow2(l),
    ;
}

/// A quotient of bounded numbers is neither tiny nor huge.
pub proof fn lemma_in_range(n: int, d: int, i: nat, j: nat, k: nat, l: nat)
    requires
        pow2(i) <= n <= pow2(j),
        pow2(k) <= d <= pow2(l),
        60 + l <= i,
        j <= 2090 + k,
    ensures
        d > 0,
        n > 0,
        pow2(60) * d <= n <= pow2(2090) * d,
{
    lemma_pow2_pos(k);
    lemma_pow2_pos(i);
    lemma_pow2_pos(60);
    lemma_pow2_pos(2090);
    lemma_pow2_adds(60, l);
    lemma_pow2_adds(2090, k);
    lemma_grows(60 + l, i);
    lemma_grows(j, 2090 + k);
    assert(pow2(60) * d <= pow2(60) * pow2(l)) by (nonlinear_arith)
        requires
            d <= pow2(l),
            pow2(60) > 0,
    ;
    assert(pow2(2090) * pow2(k) <= pow2(2090) * d) by (nonlinear_arith)
        requires
            pow2(k) <= d,
            pow2(2090) > 0,
    ;
}

pub proof fn lemma_grows(i: nat, j: nat)
    requires
        i <= j,
    ensures
        pow2(i) <= pow2(j),
{
    if i < j {
        lemma_pow2_strictly_increases(i, j);
    }
}

/// What is close to a bounded number is bounded.
pub proof fn lemma_close_range(x: int, y: int, i: nat, j: nat)
    requires
        y >= 0,
        within(x, y, 1),
        pow2(i + 1) <= x <= pow2(j),
    ensures
        pow2(i) <= y <= pow2(j + 1),
{
    lemma_pow2_unfold(i + 1);
    lemma_pow2_unfold(j + 1);
    lemma_pow2_pos(i);
    assert(x <= 2 * y) by (nonlinear_arith)
        requires
            x * TWO53 <= y * (TWO53 + 1),
            y >= 0,
            TWO53 == 0x20_0000_0000_0000,
    ;
    assert(y <= 2 * x) by (nonlinear_arith)
        requires
            y * (TWO53 - 1) <= x * TWO53,
            x >= 0,
            y >= 0,
            TWO53 == 0x20_0000_0000_0000,
    ;
}

/// The factor of a bounded product is bounded.
pub proof fn lemma_factor_range(a: int, b: int, i: nat, j: nat, k: nat, l: nat)
    requires
        pow2(i + l) <= a * b <= pow2(j + k),
        pow2(k) <= b <= pow2(l),
    ensures
        pow2(i) <= a <= pow2(j),
{
    lemma_pow2_adds(i, l);
    lemma_pow2_adds(j, k);
    lemma_pow2_pos(i);
    lemma_pow2_pos(j);
    lemma_pow2_pos(k);
    lemma_pow2_pos(l);
    assert(pow2(i) <= a) by (nonlinear_arith)
        requires
            pow2(i) * pow2(l) <= a * b,
            0 < b <= pow2(l),
            pow2(i) > 0,
    ;
    assert(a <= pow2(j)) by (nonlinear_arith)
        requires
            a * b <= pow2(j) * pow2(k),
            0 < pow2(k) <= b,
            pow2(j) > 0,
    ;
}

/// A product of two positive numbers is close to the exact one, where that is
/// bounded.
pub proof fn lemma_product_close_by(a: Flt, b: Flt, i: nat, j: nat)
    requires
        a.finite(),
        b.finite(),
        a.val() >= 0,
        b.val() >= 0,
        pow2(i) <= a.val() * b.val() <= pow2(j),
        60 + 1074 <= i,
        j <= 2090 + 1074,
    ensures
        a.times(b).finite(),
        Flt::zero().less(a.times(b)),
        within(a.val() * b.val(), a.times(b).val() * pow2(1074), 1),
{
    order::lemma_zero();
    lemma_in_range(a.val() * b.val(), pow2(1074) as int, i, j, 1074, 1074);
    order::lemma_product_value(a, b);
    lemma_relative(a.val() * b.val(), pow2(1074) as int);
    order::lemma_below_top(a.times(b), flt::nearest(a.val() * b.val(), pow2(1074) as int));
}

/// A product of bounded numbers is close to the exact one.
pub proof fn lemma_product_close(a: Flt, b: Flt, i: nat, j: nat, k: nat, l: nat)
    requires
        a.finite(),
        b.finite(),
        pow2(i) <= a.val() <= pow2(j),
        pow2(k) <= b.val() <= pow2(l),
        60 + 1074 <= i + k,
        j + l <= 2090 + 1074,
    ensures
        a.times(b).finite(),
        Flt::zero().less(a.times(b)),
        within(a.val() * b.val(), a.times(b).val() * pow2(1074), 1),
{
    lemma_pow2_pos(i);
    lemma_pow2_pos(k);
    lemma_product_range(a.val(), b.val(), i, j, k, l);
    lemma_product_close_by(a, b, i + k, j + l);
}

/// A quotient of two positive numbers is close to the exact one, where that is
/// neither tiny nor huge.
pub proof fn lemma_quotient_close_by(a: Flt, b: Flt)
    requires
        a.finite(),
        b.finite(),
        a.val() >= 0,
        b.val() > 0,
        pow2(60) * b.val() <= a.val() * pow2(1074) <= pow2(2090) * b.val(),
    ensures
        a.over(b).finite(),
        Flt::zero().less(a.over(b)),
        within(a.val() * pow2(1074), a.over(b).val() * b.val(), 1),
{
    order::lemma_zero();
    let n = a.val() * pow2(1074);
    order::lemma_quotient_value(a, b);
    lemma_relative(n, b.val());
    order::lemma_below_top(a.over(b), flt::nearest(n, b.val()));
}

/// A quotient of bounded numbers is close to the exact one.
pub proof fn lemma_quotient_close(a: Flt, b: Flt, i: nat, j: nat, k: nat, l: nat)
    requires
        a.finite(),
        b.finite(),
        pow2(i) <= a.val() <= pow2(j),
        pow2(k) <= b.val() <= pow2(l),
        60 + l <= i + 1074,
        j + 1074 <= 2090 + k,
    ensures
        a.over(b).finite(),
        Flt::zero().less(a.over(b)),
        within(a.val() * pow2(1074), a.over(b).val() * b.val(), 1),
{
    lemma_pow2_pos(i);
    lemma_pow2_pos(k);
    let n = a.val() * pow2(1074);
    lemma_product_range(a.val(), pow2(1074) as int, i, j, 1074, 1074);
    lemma_in_range(n, b.val(), i + 1074, j + 1074, k, l);
    lemma_quotient_close_by(a, b);
}

/// Where two numbers are within five parts in 2^53, neither is more than
/// twice the other.
pub proof fn lemma_within_five(x: int, y: int)
    requires
        x >= 0,
        y >= 0,
        within(x, y, 5),
    ensures
        x <= 2 * y,
        y <= 2 * x,
{
    let n = TWO53 as int;
    assert(x <= 2 * y) by (nonlinear_arith)
        requires
            x * n <= y * (n + 5),
            y >= 0,
            n == 0x20_0000_0000_0000,
    ;
    assert(y <= 2 * x) by (nonlinear_arith)
        requires
            y * (n - 5) <= x * n,
            x >= 0,
            y >= 0,
            n == 0x20_0000_0000_0000,
    ;
}

/// What is near the product of a positive number and a moderate one is
/// neither tiny nor huge beside the first.
pub proof fn lemma_between(b: int, t: int, n: int)
    requires
        b > 0,
        pow2(674) <= t <= pow2(1474),
        b * t <= 2 * n,
        n <= 2 * (b * t),
    ensures
        pow2(60) * b <= n <= pow2(2090) * b,
{
    lemma_pow2_strictly_increases(61, 674);
    lemma_pow2_unfold(61);
    lemma_pow2_strictly_increases(1475, 2090);
    lemma_pow2_unfold(1475);
    assert(2 * (pow2(60) * b) <= b * t) by (nonlinear_arith)
        requires
            2 * pow2(60) <= t,
            b > 0,
    ;
    assert(2 * (b * t) <= pow2(2090) * b) by (nonlinear_arith)
        requires
            2 * t <= pow2(2090),
            b > 0,
    ;
}

/// Sixty lies between 2^5 and 2^6.
pub proof fn lemma_sixty_range()
    ensures
        pow2(1079) <= Flt::sixty().val() <= pow2(1080),
{
    order::lemma_sixty();
    lemma2_to64();
    lemma_pow2_adds(5, 1074);
    lemma_pow2_adds(6, 1074);
    lemma_pow2_pos(1074);
}

/// A moderate number is finite and positive.
pub proof fn lemma_moderate(x: Flt)
    requires
        moderate(x),
    ensures
        x.finite(),
        Flt::zero().less(x),
{
    order::lemma_zero();
    lemma_pow2_pos(674);
    order::lemma_positive(x);
    if x.infinite() {
        flt::lemma_weight_split(2045, TWO53 as int);
        assert(2045 * TWO52 + TWO53 == INF_MAG);
        lemma2_to64();
        lemma2_to64_rest();
        lemma_pow2_adds(53, 2045);
        lemma_pow2_strictly_increases(1474, 2098);
    }
}

/// A positive number between 2^-400 and 2^400.
pub open spec fn moderate(x: Flt) -> bool {
    !x.nan() && pow2(674) <= x.val() <= pow2(1474)
}

} // verus!

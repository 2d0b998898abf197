//! The area under a tempo, exact and as it is worked out.
use vstd::arithmetic::power2::*;
use vstd::prelude::*;

use crate::flt;
use crate::flt::near;
use crate::flt::order;
use crate::flt::{Flt, TWO52, TWO53};
use crate::inverse::scale;
use crate::tempo;

verus! {

/// The slope is 0, or so large that it can be halved exactly.
pub open spec fn halves(k: Flt) -> bool {
    k.finite() && (k.val() == 0 || near::size(k.val()) >= TWO53)
}

/// Half of a slope, and twice a slope, are exact.
pub proof fn lemma_halves(k: Flt)
    requires
        halves(k),
        near::size(k.val()) <= pow2(2000),
    ensures
        Flt::half().times(k).finite(),
        2 * Flt::half().times(k).val() == k.val(),
        Flt::two().times(k).finite(),
        Flt::two().times(k).val() == 2 * k.val(),
{
    let p = scale::unit();
    let m = k.mag();
    let w = flt::weight(m);
    lemma_pow2_pos(1074);
    lemma2_to64();
    lemma2_to64_rest();
    flt::lemma_weight_step(m);
    assert(w == near::size(k.val()));
    flt::lemma_weight_split(1021, TWO52 as int);
    assert(1021 * TWO52 + TWO52 == Flt::half().bits);
    lemma_pow2_adds(52, 1021);
    lemma_pow2_unfold(1074);
    flt::lemma_weight_split(1023, TWO52 as int);
    assert(1023 * TWO52 + TWO52 == Flt::two().bits);
    lemma_pow2_adds(52, 1023);
    lemma_pow2_unfold(1075);
    let h = flt::weight(Flt::half().mag());
    let t = flt::weight(Flt::two().mag());
    assert(2 * h == p && t == 2 * p);
    if w == 0 {
        order::lemma_zero_rounds(p);
        assert(h * w == 0 && t * w == 0) by (nonlinear_arith)
            requires
                w == 0,
        ;
    } else {
        let d = TWO52 as int;
        assert(m >= TWO53) by {
            flt::lemma_weight_split(0, TWO53 as int);
            assert(TWO53 * pow2(0) == TWO53) by (nonlinear_arith)
                requires
                    pow2(0) == 1,
            ;
            if m < TWO53 {
                flt::lemma_weight_lt(m, TWO53 as int);
            }
        }
        let e = m / d - 1;
        let q = d + m % d;
        vstd::arithmetic::div_mod::lemma_fundamental_div_mod(m, d);
        assert(m / d >= 2) by (nonlinear_arith)
            requires
                m >= 2 * d,
                d > 0,
                m == d * (m / d) + m % d,
                0 <= m % d < d,
        ;
        assert(m == e * TWO52 + q);
        flt::lemma_weight_split(e, q);
        flt::lemma_weight_split(e - 1, q);
        flt::lemma_weight_split(e + 1, q);
        lemma_pow2_unfold(e as nat);
        lemma_pow2_unfold((e + 1) as nat);
        let low = flt::weight(m - d);
        let high = flt::weight(m + d);
        assert((e - 1) * TWO52 + q == m - d);
        assert((e + 1) * TWO52 + q == m + d);
        assert(2 * low == w) by (nonlinear_arith)
            requires
                low == q * pow2((e - 1) as nat),
                w == q * pow2(e as nat),
                pow2(e as nat) == 2 * pow2((e - 1) as nat),
        ;
        assert(high == 2 * w) by (nonlinear_arith)
            requires
                high == q * pow2((e + 1) as nat),
                w == q * pow2(e as nat),
                pow2((e + 1) as nat) == 2 * pow2(e as nat),
        ;
        assert(h * w == low * p) by (nonlinear_arith)
            requires
                2 * h == p,
                2 * low == w,
        ;
        assert(t * w == high * p) by (nonlinear_arith)
            requires
                t == 2 * p,
                high == 2 * w,
        ;
        assert(m + d < flt::INF_MAG) by {
            let top = 1949 * TWO52;
            flt::lemma_weight_split(1948, TWO52 as int);
            assert(1948 * TWO52 + TWO52 == top);
            lemma_pow2_adds(52, 1948);
            if m > top {
                flt::lemma_weight_lt(top, m);
            }
        }
        flt::convert::lemma_exact(m - d, p);
        flt::convert::lemma_exact(m + d, p);
    }
}

/// Twice the area under the tempo, `x` after the start: 2 · 60 times the beats,
/// in square units.
pub open spec fn swept(b: int, k: int, x: int) -> int {
    x * (2 * b * scale::unit() + k * x)
}

/// The beats in a stretch are those under the exact tempo, up to 8960 steps of
/// a sixtieth.
pub proof fn lemma_area(bpm: Flt, k: Flt, dt: Flt)
    requires
        bpm.finite(),
        dt.finite(),
        halves(k),
        near::size(k.val()) <= pow2(2000),
        0 <= bpm.val() <= 1024 * scale::unit(),
        0 <= dt.val() <= 1024 * scale::unit(),
        near::off(k.val() * dt.val(), 0, 1024 * scale::unit() * scale::unit()),
    ensures
        tempo::area(bpm, k, dt).finite(),
        near::off(tempo::area(bpm, k, dt).val(), 0, 0x1_0000 * scale::unit()),
        near::off(
            60 * tempo::area(bpm, k, dt).val() * (2 * scale::unit() * scale::unit()),
            swept(bpm.val(), k.val(), dt.val()),
            8960 * scale::step() * (2 * scale::unit() * scale::unit()),
        ),
{
    let p = scale::unit();
    let e = scale::step();
    let b = bpm.val();
    let d = dt.val();
    scale::lemma_scale();
    lemma_halves(k);
    order::lemma_sixty();
    scale::lemma_bound(b, d, 1024 * p, 1024 * p);
    assert((1024 * p) * (1024 * p) == 0x10_0000 * p * p) by (nonlinear_arith);
    near::lemma_product_near(bpm, dt, 1094);
    let x1 = bpm.times(dt);
    let hk = Flt::half().times(k);
    let h = hk.val();
    assert(2 * (h * d) == k.val() * d) by (nonlinear_arith)
        requires
            2 * h == k.val(),
    ;
    near::lemma_product_near(hk, dt, 1084);
    let x2 = hk.times(dt);
    assert(near::off(x2.val() * d, 0, 0x10_0000 * p * p)) by {
        if x2.val() >= 0 {
            scale::lemma_bound(x2.val(), d, 1024 * p, 1024 * p);
        } else {
            scale::lemma_bound(-x2.val(), d, 1024 * p, 1024 * p);
            assert((-x2.val()) * d == -(x2.val() * d)) by (nonlinear_arith);
        }
    }
    near::lemma_product_near(x2, dt, 1094);
    let x3 = x2.times(dt);
    near::lemma_sum_near(x1, x3, 1095);
    let x4 = x1.plus(x3);
    let v4 = x4.val();
    let s = Flt::sixty().val();
    assert(near::size(v4) * p <= pow2(1090) * s) by (nonlinear_arith)
        requires
            near::size(v4) <= 0x20_0000 * p,
            s == 60 * p,
            pow2(1090) == 0x1_0000 * p,
            p > 0,
    ;
    near::lemma_quotient_near(x4, Flt::sixty(), 1090);
    let q = x4.over(Flt::sixty()).val();
    assert(near::off(60 * q, v4, 3840 * e)) by (nonlinear_arith)
        requires
            near::off(q * s, v4 * p, 64 * e * s),
            s == 60 * p,
            p > 0,
    ;
    lemma_area_adds(p, e, b, k.val(), h, d, x1.val(), x2.val(), x3.val(), q);
}

proof fn lemma_area_adds(
    p: int,
    e: int,
    b: int,
    k: int,
    h: int,
    d: int,
    x1: int,
    x2: int,
    x3: int,
    q: int,
)
    requires
        p == scale::unit(),
        p > 0,
        e > 0,
        2 * h == k,
        0 <= d <= 1024 * p,
        near::off(x1 * p, b * d, 1024 * e * p),
        near::off(x2 * p, h * d, e * p),
        near::off(x3 * p, x2 * d, 1024 * e * p),
        near::off(60 * q, x1 + x3, 5888 * e),
    ensures
        near::off(60 * q * (2 * p * p), swept(b, k, d), 8960 * e * (2 * p * p)),
{
    let pp = p * p;
    let ep = e * pp;
    assert(near::off(x1 * pp, b * d * p, 1024 * ep)) by (nonlinear_arith)
        requires
            near::off(x1 * p, b * d, 1024 * e * p),
            p > 0,
            pp == p * p,
            ep == e * pp,
    ;
    assert(near::off(x2 * d * p, h * d * d, 1024 * ep)) by (nonlinear_arith)
        requires
            near::off(x2 * p, h * d, e * p),
            0 <= d <= 1024 * p,
            p > 0,
            e > 0,
            pp == p * p,
            ep == e * pp,
    {
        assert(x2 * p * d <= h * d * d + e * p * d);
        assert(h * d * d - e * p * d <= x2 * p * d);
        assert(e * p * d <= e * p * (1024 * p));
        assert(x2 * d * p == x2 * p * d);
        assert(e * p * (1024 * p) == 1024 * ep);
    }
    assert(near::off(x3 * pp, x2 * d * p, 1024 * ep)) by (nonlinear_arith)
        requires
            near::off(x3 * p, x2 * d, 1024 * e * p),
            p > 0,
            pp == p * p,
            ep == e * pp,
    ;
    assert(near::off(60 * q * pp, x1 * pp + x3 * pp, 5888 * ep)) by (nonlinear_arith)
        requires
            near::off(60 * q, x1 + x3, 5888 * e),
            pp == p * p,
            p > 0,
            ep == e * pp,
    {
        assert(pp > 0);
        assert(60 * q * pp <= (x1 + x3 + 5888 * e) * pp);
        assert((x1 + x3 - 5888 * e) * pp <= 60 * q * pp);
    }
    assert(60 * q * (2 * p * p) == 2 * (60 * q * pp)) by (nonlinear_arith)
        requires
            pp == p * p,
    ;
    assert(8960 * e * (2 * p * p) == 2 * (8960 * ep)) by (nonlinear_arith)
        requires
            pp == p * p,
            ep == e * pp,
    ;
    assert(swept(b, k, d) == 2 * (b * d * p) + 2 * (h * d * d)) by (nonlinear_arith)
        requires
            swept(b, k, d) == d * (2 * b * p + k * d),
            2 * h == k,
    ;
}

/// The areas under a tempo at two times.
pub proof fn lemma_swept_apart(b: int, k: int, x: int, y: int, p: int)
    requires
        p == scale::unit(),
    ensures
        swept(b, k, y) - swept(b, k, x) == (y - x) * ((b * p + k * x) + (b * p + k * y)),
{
    assert(y * (2 * b * p + k * y) - x * (2 * b * p + k * x) == (y - x) * ((b * p + k * x) + (b
        * p + k * y))) by (nonlinear_arith);
}

/// A product does not depend on the order, and turns with the sign of a factor.
pub proof fn lemma_times_turns(a: Flt, b: Flt)
    requires
        a.finite(),
        b.finite(),
    ensures
        b.times(a) == a.times(b),
        !a.times(b).nan() ==> a.negated().times(b).val() == -a.times(b).val(),
{
    order::lemma_negated(a);
    lemma_pow2_pos(1074);
    let x = flt::weight(a.mag());
    let y = flt::weight(b.mag());
    flt::lemma_weight_step(a.mag());
    flt::lemma_weight_step(b.mag());
    assert(x * y == y * x) by (nonlinear_arith);
    assert(x * y >= 0) by (nonlinear_arith)
        requires
            x >= 0,
            y >= 0,
    ;
    order::lemma_nearest_exists(x * y, scale::unit());
}

/// As long as the tempo is not negative, the beats do not run back.
pub proof fn lemma_area_grows(bpm: Flt, k: Flt, dt: Flt)
    requires
        bpm.finite(),
        dt.finite(),
        halves(k),
        near::size(k.val()) <= pow2(2000),
        scale::unit() <= bpm.val() <= 1024 * scale::unit(),
        0 <= dt.val() <= 1024 * scale::unit(),
        near::off(k.val() * dt.val(), 0, 1024 * scale::unit() * scale::unit()),
        bpm.val() * scale::unit() + k.val() * dt.val() >= 0,
    ensures
        tempo::area(bpm, k, dt).val() >= 0,
{
    let p = scale::unit();
    let e = scale::step();
    let b = bpm.val();
    let d = dt.val();
    scale::lemma_scale();
    lemma_halves(k);
    lemma_area(bpm, k, dt);
    order::lemma_sixty();
    order::lemma_zero();
    scale::lemma_bound(b, d, 1024 * p, 1024 * p);
    assert((1024 * p) * (1024 * p) == 0x10_0000 * p * p) by (nonlinear_arith);
    near::lemma_product_near(bpm, dt, 1094);
    let x1 = bpm.times(dt);
    let hk = Flt::half().times(k);
    let h = hk.val();
    assert(2 * (h * d) == k.val() * d) by (nonlinear_arith)
        requires
            2 * h == k.val(),
    ;
    near::lemma_product_near(hk, dt, 1084);
    let x2 = hk.times(dt);
    assert(x2.val() >= -b) by (nonlinear_arith)
        requires
            near::off(x2.val() * p, h * d, e * p),
            2 * (h * d) >= -(b * p),
            b >= p,
            p == 0x1000_0000_0000 * e,
            e > 0,
    {
        assert(2 * (x2.val() * p) >= -(b * p) - 2 * (e * p));
        assert(2 * (e * p) <= b * p) by {
            assert(2 * e <= b);
        }
        assert(2 * (x2.val() * p) >= -2 * (b * p));
    }
    assert(near::off(x2.val() * d, 0, 0x10_0000 * p * p)) by {
        if x2.val() >= 0 {
            scale::lemma_bound(x2.val(), d, 1024 * p, 1024 * p);
        } else {
            scale::lemma_bound(-x2.val(), d, 1024 * p, 1024 * p);
            assert((-x2.val()) * d == -(x2.val() * d)) by (nonlinear_arith);
        }
    }
    near::lemma_product_near(x2, dt, 1094);
    let x3 = x2.times(dt);
    assert(x1.val() + x3.val() >= 0) by {
        if x2.val() >= 0 {
            assert(x2.val() * d >= 0) by (nonlinear_arith)
                requires
                    x2.val() >= 0,
                    d >= 0,
            ;
        } else {
            order::lemma_negated(x2);
            order::product_is_monotone(dt, x2.negated(), bpm);
            lemma_times_turns(x2, dt);
            lemma_times_turns(bpm, dt);
            lemma_times_turns(x2.negated(), dt);
        }
    }
    near::lemma_sum_near(x1, x3, 1095);
    let x4 = x1.plus(x3);
    order::lemma_quotient_value(x4, Flt::sixty());
}

} // verus!

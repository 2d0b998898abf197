//! How far a rounded result can be from the exact one, where it is known how
//! large that is.
use vstd::arithmetic::div_mod::*;
use vstd::arithmetic::power2::*;
use vstd::prelude::*;

use crate::flt;
use crate::flt::error;
use crate::flt::order;
use crate::flt::root;
use crate::flt::{Flt, INF_MAG, TWO52, TWO53};

verus! {

/// `x` and `y` differ by no more than `e`.
pub open spec fn off(x: int, y: int, e: int) -> bool {
    -e <= x - y <= e
}

/// The size of a number, whatever its sign.
pub open spec fn size(x: int) -> int {
    if x < 0 {
        -x
    } else {
        x
    }
}

/// Below 2^k, neighbouring doubles are no more than 2^(k-53) apart.
proof fn lemma_step_below(m: int, k: nat)
    requires
        0 <= m,
        flt::weight(m) < pow2(k),
        53 <= k,
    ensures
        flt::weight(m + 1) - flt::weight(m) <= pow2((k - 53) as nat),
{
    let step = TWO52 as int;
    lemma_pow2_pos((k - 53) as nat);
    if m < TWO52 {
        lemma2_to64();
        flt::lemma_weight_split(0, m);
        flt::lemma_weight_split(0, m + 1);
        assert(m * pow2(0) == m && (m + 1) * pow2(0) == m + 1) by (nonlinear_arith)
            requires
                pow2(0) == 1,
        ;
    } else {
        let e = m / step - 1;
        let q = step + m % step;
        lemma_fundamental_div_mod(m, step);
        assert(m / step >= 1) by (nonlinear_arith)
            requires
                m >= step,
                step > 0,
                m == step * (m / step) + m % step,
                0 <= m % step < step,
        ;
        assert(m == e * TWO52 + q);
        flt::lemma_weight_split(e, q);
        flt::lemma_weight_split(e, q + 1);
        let p = pow2(e as nat) as int;
        lemma_pow2_pos(e as nat);
        assert((q + 1) * p - q * p == p) by (nonlinear_arith);
        if e > k - 53 {
            lemma2_to64_rest();
            lemma_pow2_adds(52, (k - 52) as nat);
            error::lemma_grows((k - 52) as nat, e as nat);
            assert(q * p >= pow2(52) * pow2((k - 52) as nat)) by (nonlinear_arith)
                requires
                    q >= pow2(52),
                    p >= pow2((k - 52) as nat),
                    pow2(52) > 0,
                    p > 0,
            ;
        }
        error::lemma_grows(e as nat, (k - 53) as nat);
    }
}

/// The double nearest to a quotient of no more than 2^k.
proof fn lemma_near(n: int, d: int, k: nat)
    requires
        0 <= n <= pow2(k) * d,
        d > 0,
        54 <= k <= 2000,
    ensures
        0 <= flt::nearest(n, d) < INF_MAG,
        0 <= flt::weight(flt::nearest(n, d)) <= pow2(k),
        off(flt::weight(flt::nearest(n, d)) * d, n, pow2((k - 54) as nat) * d),
{
    order::lemma_nearest_exists(n, d);
    let m = flt::nearest(n, d);
    let w = flt::weight(m);
    let top = pow2(k) as int;
    let e = pow2((k - 54) as nat) as int;
    lemma_pow2_unfold((k - 53) as nat);
    lemma2_to64();
    lemma2_to64_rest();
    lemma_pow2_adds(52, (k - 52) as nat);
    flt::lemma_weight_split(k - 52, TWO52 as int);
    let l = (k - 52) * TWO52 + TWO52;
    assert(flt::weight(l) == top);
    flt::lemma_weight_step(m);
    assert(l < INF_MAG) by (nonlinear_arith)
        requires
            k <= 2000,
            l == (k - 52) * TWO52 + TWO52,
            TWO52 == 0x10_0000_0000_0000,
            INF_MAG == 0x7ff0_0000_0000_0000,
    ;
    if m > l {
        if l < m - 1 {
            flt::lemma_weight_lt(l, m - 1);
        }
        flt::lemma_weight_lt(l, m);
        let a = flt::weight(m - 1) + w;
        assert(a * d > 2 * (top * d)) by (nonlinear_arith)
            requires
                a > 2 * top,
                d > 0,
        ;
    }
    assert(m <= l);
    if m < l {
        flt::lemma_weight_lt(m, l);
    }
    if w * d < n {
        assert(m < l) by {
            if m == l {
                assert(w * d == top * d);
            }
        }
        lemma_step_below(m, k);
        let up = flt::weight(m + 1) - w;
        assert(n - w * d <= e * d) by (nonlinear_arith)
            requires
                2 * n <= (w + (w + up)) * d,
                up <= 2 * e,
                d > 0,
        ;
    } else if m > 0 {
        flt::lemma_weight_step(m - 1);
        lemma_step_below(m - 1, k);
        let down = w - flt::weight(m - 1);
        assert(w * d - n <= e * d) by (nonlinear_arith)
            requires
                ((w - down) + w) * d <= 2 * n,
                down <= 2 * e,
                d > 0,
        ;
    } else {
        reveal(flt::weight);
        assert(w * d == 0) by (nonlinear_arith)
            requires
                w == 0,
        ;
        lemma_pow2_pos((k - 54) as nat);
        assert(e * d >= 0) by (nonlinear_arith)
            requires
                e > 0,
                d > 0,
        ;
    }
}

/// A sum of no more than 2^k is off by no more than 2^(k-54).
pub proof fn lemma_sum_near(a: Flt, b: Flt, k: nat)
    requires
        a.finite(),
        b.finite(),
        off(a.val() + b.val(), 0, pow2(k) as int),
        54 <= k <= 2000,
    ensures
        a.plus(b).finite(),
        off(a.plus(b).val(), a.val() + b.val(), pow2((k - 54) as nat) as int),
        off(a.plus(b).val(), 0, pow2(k) as int),
        a.val() + b.val() >= 0 ==> a.plus(b).val() >= 0,
{
    let x = a.val() + b.val();
    lemma_pow2_pos((k - 54) as nat);
    assert(pow2(k) * 1 == pow2(k));
    assert(pow2((k - 54) as nat) * 1 == pow2((k - 54) as nat));
    if x < 0 {
        lemma_near(-x, 1, k);
    } else if x > 0 {
        lemma_near(x, 1, k);
    } else {
        reveal(flt::weight);
    }
}

/// So is a difference.
pub proof fn lemma_difference_near(a: Flt, b: Flt, k: nat)
    requires
        a.finite(),
        b.finite(),
        off(a.val() - b.val(), 0, pow2(k) as int),
        54 <= k <= 2000,
    ensures
        a.minus(b).finite(),
        off(a.minus(b).val(), a.val() - b.val(), pow2((k - 54) as nat) as int),
        off(a.minus(b).val(), 0, pow2(k) as int),
        a.val() - b.val() >= 0 ==> a.minus(b).val() >= 0,
{
    order::lemma_negated(b);
    lemma_sum_near(a, b.negated(), k);
}

/// The least power of two, of those from 2^54 on, that is no less than a
/// quotient.
pub proof fn lemma_exponent(n: int, d: int, top: nat) -> (k: nat)
    requires
        n <= pow2(top) * d,
        54 <= top,
    ensures
        54 <= k <= top,
        n <= pow2(k) * d,
        k == 54 || pow2((k - 1) as nat) * d < n,
    decreases top,
{
    if top == 54 || pow2((top - 1) as nat) * d < n {
        top
    } else {
        lemma_exponent(n, d, (top - 1) as nat)
    }
}

/// The least power of two, of those from 2^54 on, whose square is no less than
/// a number.
pub proof fn lemma_root_exponent(x: int, top: nat) -> (k: nat)
    requires
        x <= pow2(top) as int * pow2(top),
        54 <= top,
    ensures
        54 <= k <= top,
        x <= pow2(k) as int * pow2(k),
        k == 54 || (pow2((k - 1) as nat) as int) * pow2((k - 1) as nat) < x,
    decreases top,
{
    if top == 54 || (pow2((top - 1) as nat) as int) * pow2((top - 1) as nat) < x {
        top
    } else {
        lemma_root_exponent(x, (top - 1) as nat)
    }
}

/// A sum is off by no more than 2^-53 of itself, or by no more than the least
/// double.
pub proof fn lemma_sum_relative(a: Flt, b: Flt)
    requires
        a.finite(),
        b.finite(),
        off(a.val() + b.val(), 0, pow2(2000) as int),
    ensures
        a.plus(b).finite(),
        TWO53 * size(a.plus(b).val() - (a.val() + b.val())) <= size(a.val() + b.val()) + TWO53,
{
    let x = size(a.val() + b.val());
    assert(pow2(2000) * 1 == pow2(2000));
    let k = lemma_exponent(x, 1, 2000);
    assert(pow2(k) * 1 == pow2(k));
    assert(pow2((k - 1) as nat) * 1 == pow2((k - 1) as nat));
    lemma_sum_near(a, b, k);
    lemma2_to64();
    lemma2_to64_rest();
    if k > 54 {
        lemma_pow2_adds(53, (k - 54) as nat);
    }
}

/// From one double to the next it is no more than twice as far as from the one
/// before.
proof fn lemma_steps_grow(m: int)
    requires
        m >= 1,
    ensures
        flt::weight(m + 1) - flt::weight(m) <= 2 * (flt::weight(m) - flt::weight(m - 1)),
{
    let step = TWO52 as int;
    if m < TWO52 {
        lemma2_to64();
        flt::lemma_weight_split(0, m - 1);
        flt::lemma_weight_split(0, m);
        flt::lemma_weight_split(0, m + 1);
        assert((m - 1) * pow2(0) == m - 1 && m * pow2(0) == m && (m + 1) * pow2(0) == m + 1)
            by (nonlinear_arith)
            requires
                pow2(0) == 1,
        ;
    } else {
        let e = m / step - 1;
        let q = step + m % step;
        lemma_fundamental_div_mod(m, step);
        assert(m / step >= 1) by (nonlinear_arith)
            requires
                m >= step,
                step > 0,
                m == step * (m / step) + m % step,
                0 <= m % step < step,
        ;
        assert(m == e * TWO52 + q);
        flt::lemma_weight_split(e, q);
        flt::lemma_weight_split(e, q + 1);
        let p = pow2(e as nat) as int;
        lemma_pow2_pos(e as nat);
        assert((q + 1) * p - q * p == p) by (nonlinear_arith);
        if q > step || e == 0 {
            flt::lemma_weight_split(e, q - 1);
            assert(q * p - (q - 1) * p == p) by (nonlinear_arith);
        } else {
            flt::lemma_weight_split(e - 1, TWO53 - 1);
            lemma_pow2_unfold(e as nat);
            let h = pow2((e - 1) as nat) as int;
            assert(q * p - (TWO53 - 1) * h == h) by (nonlinear_arith)
                requires
                    p == 2 * h,
                    q == step,
                    TWO53 == 2 * step,
                    step == TWO52,
            ;
        }
    }
}

/// A sum that moves at all moves by half of what was added, or more, and by no
/// more than twice of it.
pub proof fn lemma_sum_moves(a: Flt, b: Flt)
    requires
        a.finite(),
        b.finite(),
        a.val() >= 0,
        b.val() > 0,
        a.plus(b).finite(),
    ensures
        a.val() <= a.plus(b).val() <= a.val() + 2 * b.val(),
        a.plus(b).val() > a.val() ==> b.val() <= 2 * (a.plus(b).val() - a.val()),
{
    let x = a.val() + b.val();
    let m = flt::nearest(x, 1);
    let w = flt::weight(m);
    let v = flt::weight(a.mag());
    order::lemma_zero();
    order::lemma_nearest_exists(x, 1);
    order::sum_never_shrinks(a, b);
    flt::lemma_weight_step(a.mag());
    flt::lemma_compare(a, a);
    assert(a.val() == v);
    assert(a.plus(b).val() == w);
    if w > v {
        assert(a.mag() < m) by {
            if m < a.mag() {
                flt::lemma_weight_lt(m, a.mag());
            }
        }
        if a.mag() < m - 1 {
            flt::lemma_weight_lt(a.mag(), m - 1);
        }
        lemma_steps_grow(m);
        assert((flt::weight(m) + flt::weight(m + 1)) * 1 == flt::weight(m) + flt::weight(m + 1));
        assert((flt::weight(m - 1) + flt::weight(m)) * 1 == flt::weight(m - 1) + flt::weight(m));
    }
}

/// So is a difference.
pub proof fn lemma_difference_relative(a: Flt, b: Flt)
    requires
        a.finite(),
        b.finite(),
        off(a.val() - b.val(), 0, pow2(2000) as int),
    ensures
        a.minus(b).finite(),
        TWO53 * size(a.minus(b).val() - (a.val() - b.val())) <= size(a.val() - b.val()) + TWO53,
        a.val() - b.val() >= 0 ==> a.minus(b).val() >= 0,
{
    order::lemma_negated(b);
    lemma_sum_relative(a, b.negated());
    lemma_sum_near(a, b.negated(), 2000);
}

/// So is a product.
pub proof fn lemma_product_relative(a: Flt, b: Flt)
    requires
        a.finite(),
        b.finite(),
        off(a.val() * b.val(), 0, pow2(2000) as int * pow2(1074)),
    ensures
        a.times(b).finite(),
        TWO53 * size(a.times(b).val() * pow2(1074) - a.val() * b.val()) <= size(
            a.val() * b.val(),
        ) + TWO53 * pow2(1074),
{
    let p = pow2(1074) as int;
    let x = size(a.val() * b.val());
    let k = lemma_exponent(x, p, 2000);
    lemma_product_near(a, b, k);
    let u = pow2((k - 54) as nat) as int;
    let h = pow2((k - 1) as nat) as int;
    lemma2_to64();
    lemma2_to64_rest();
    lemma_pow2_pos(1074);
    if k > 54 {
        lemma_pow2_adds(53, (k - 54) as nat);
        assert(TWO53 * (u * p) == h * p) by (nonlinear_arith)
            requires
                h == TWO53 * u,
        ;
    }
}

proof fn lemma_times_sign(x: int, y: int)
    ensures
        (-x) * y == -(x * y),
        x * (-y) == -(x * y),
        (-x) * (-y) == x * y,
        x >= 0 && y >= 0 ==> x * y >= 0,
{
    assert((-x) * y == -(x * y)) by (nonlinear_arith);
    assert(x * (-y) == -(x * y)) by (nonlinear_arith);
    assert((-x) * (-y) == x * y) by (nonlinear_arith);
    if x >= 0 && y >= 0 {
        assert(x * y >= 0) by (nonlinear_arith)
            requires
                x >= 0,
                y >= 0,
        ;
    }
}

/// A product of no more than 2^k is off by no more than 2^(k-54).
pub proof fn lemma_product_near(a: Flt, b: Flt, k: nat)
    requires
        a.finite(),
        b.finite(),
        off(a.val() * b.val(), 0, pow2(k) as int * pow2(1074)),
        54 <= k <= 2000,
    ensures
        a.times(b).finite(),
        off(
            a.times(b).val() * pow2(1074),
            a.val() * b.val(),
            pow2((k - 54) as nat) as int * pow2(1074),
        ),
        off(a.times(b).val(), 0, pow2(k) as int),
        a.val() * b.val() >= 0 ==> a.times(b).val() >= 0,
        a.val() * b.val() <= 0 ==> a.times(b).val() <= 0,
{
    let p = pow2(1074) as int;
    let x = flt::weight(a.mag());
    let y = flt::weight(b.mag());
    lemma_pow2_pos(1074);
    flt::lemma_weight_step(a.mag());
    flt::lemma_weight_step(b.mag());
    lemma_times_sign(x, y);
    lemma_near(x * y, p, k);
    let w = flt::weight(flt::nearest(x * y, p));
    lemma_times_sign(w, p);
    order::lemma_zero_rounds(p);
    let r = a.times(b);
    assert(r.val() == if a.neg() != b.neg() { -w } else { w });
    assert(a.val() * b.val() == if a.neg() != b.neg() { -(x * y) } else { x * y });
}

/// A quotient of no more than 2^k is off by no more than 2^(k-54).
#[verifier::spinoff_prover]
#[verifier::rlimit(60)]
pub proof fn lemma_quotient_near(a: Flt, b: Flt, k: nat)
    requires
        a.finite(),
        b.finite(),
        b.val() != 0,
        size(a.val()) * pow2(1074) <= pow2(k) * size(b.val()),
        54 <= k <= 2000,
    ensures
        a.over(b).finite(),
        off(
            a.over(b).val() * b.val(),
            a.val() * pow2(1074),
            pow2((k - 54) as nat) * size(b.val()),
        ),
        off(a.over(b).val(), 0, pow2(k) as int),
        a.val() >= 0 && b.val() > 0 ==> a.over(b).val() >= 0,
{
    let p = pow2(1074) as int;
    let x = flt::weight(a.mag());
    let y = flt::weight(b.mag());
    lemma_pow2_pos(1074);
    flt::lemma_weight_step(a.mag());
    flt::lemma_weight_step(b.mag());
    reveal(flt::weight);
    lemma_times_sign(x, p);
    lemma_near(x * p, y, k);
    order::lemma_zero_rounds(y);
    let w = flt::weight(flt::nearest(x * p, y));
    lemma_times_sign(w, y);
    let r = a.over(b);
    assert(b.mag() != 0);
    assert(r.val() == if a.neg() != b.neg() { -w } else { w });
    assert(size(a.val()) == x && size(b.val()) == y);
    assert(r.val() * b.val() == if a.neg() { -(w * y) } else { w * y });
    assert(a.val() * p == if a.neg() { -(x * p) } else { x * p });
}

/// A quotient that is neither tiny nor huge is off by no more than 2^-52 of
/// itself.
pub proof fn lemma_quotient_relative(a: Flt, b: Flt)
    requires
        a.finite(),
        b.finite(),
        b.val() > 0,
        a.val() == 0 || pow2(60) * b.val() <= size(a.val()) * pow2(1074) <= pow2(2090) * b.val(),
    ensures
        a.over(b).finite(),
        off(
            TWO52 * (a.over(b).val() * b.val()),
            TWO52 * (a.val() * pow2(1074)),
            size(a.val()) * pow2(1074),
        ),
        a.val() == 0 ==> a.over(b).val() == 0,
{
    let p = pow2(1074) as int;
    let x = flt::weight(a.mag());
    let y = flt::weight(b.mag());
    lemma_pow2_pos(1074);
    flt::lemma_weight_step(a.mag());
    flt::lemma_weight_step(b.mag());
    reveal(flt::weight);
    assert(b.mag() != 0);
    assert(size(a.val()) == x && b.val() == y);
    lemma_times_sign(x, p);
    order::lemma_zero_rounds(y);
    let n = x * p;
    let w = flt::weight(flt::nearest(n, y));
    lemma_times_sign(w, y);
    if x == 0 {
        assert(n == 0) by (nonlinear_arith)
            requires
                x == 0,
                n == x * p,
        ;
        assert(w * y == 0) by (nonlinear_arith)
            requires
                w == 0,
        ;
    } else {
        error::lemma_relative(n, y);
        let z = w * y;
        assert(off(TWO52 * z, TWO52 * n, n)) by (nonlinear_arith)
            requires
                n * TWO53 <= z * (TWO53 + 1),
                z * (TWO53 - 1) <= n * TWO53,
                n >= 0,
                z >= 0,
                TWO53 == 2 * TWO52,
                TWO52 == 0x10_0000_0000_0000,
        {
            assert(z <= 2 * n);
        }
    }
    let r = a.over(b);
    assert(r.val() == if a.neg() { -w } else { w });
    assert(r.val() * b.val() == if a.neg() { -(w * y) } else { w * y });
    assert(a.val() * p == if a.neg() { -(x * p) } else { x * p });
}

/// Looks upwards from `m` for the double nearest to the square root of `x`.
proof fn lemma_root_search(x: int, m: int, l: int) -> (r: int)
    requires
        x > 0,
        0 < m <= l < INF_MAG,
        x <= flt::weight(l) * flt::weight(l),
        (flt::weight(m - 1) + flt::weight(m)) * (flt::weight(m - 1) + flt::weight(m)) <= 4 * x,
        (flt::weight(m - 1) + flt::weight(m)) * (flt::weight(m - 1) + flt::weight(m)) == 4 * x
            ==> m % 2 == 0,
    ensures
        m <= r <= l,
        root::rounds_to_root(x, r),
    decreases l - m,
{
    let above = flt::weight(m) + flt::weight(m + 1);
    if 4 * x < above * above || (4 * x == above * above && m % 2 == 0) {
        m
    } else {
        if m == l {
            let w = flt::weight(l);
            flt::lemma_weight_step(l);
            assert(4 * x < above * above) by (nonlinear_arith)
                requires
                    x <= w * w,
                    above > 2 * w,
                    w >= 0,
            {
                assert(4 * (w * w) == (2 * w) * (2 * w));
                assert((2 * w) * (2 * w) < above * above);
            }
        }
        lemma_root_search(x, m + 1, l)
    }
}

/// A square root of no more than 2^k is off by no more than 2^(k-54).
pub proof fn lemma_root_near(a: Flt, k: nat)
    requires
        a.finite(),
        a.val() > 0,
        a.val() * pow2(1074) <= pow2(k) as int * pow2(k),
        54 <= k <= 2000,
    ensures
        a.root().finite(),
        0 <= a.root().val() <= pow2(k),
        ({
            let r = a.root().val();
            let e = pow2((k - 54) as nat) as int;
            let x = a.val() * pow2(1074);
            &&& x <= (r + e) * (r + e)
            &&& r >= e ==> (r - e) * (r - e) <= x
        }),
{
    let p = pow2(1074) as int;
    let x = a.val() * p;
    let top = pow2(k) as int;
    let e = pow2((k - 54) as nat) as int;
    lemma_pow2_pos(1074);
    order::lemma_positive(a);
    reveal(flt::weight);
    lemma2_to64();
    lemma2_to64_rest();
    lemma_pow2_adds(52, (k - 52) as nat);
    lemma_pow2_unfold((k - 53) as nat);
    flt::lemma_weight_split(k - 52, TWO52 as int);
    let l = (k - 52) * TWO52 + TWO52;
    assert(l < INF_MAG) by (nonlinear_arith)
        requires
            k <= 2000,
            l == (k - 52) * TWO52 + TWO52,
            TWO52 == 0x10_0000_0000_0000,
            INF_MAG == 0x7ff0_0000_0000_0000,
    ;
    assert(x > 0) by (nonlinear_arith)
        requires
            a.val() > 0,
            p > 0,
            x == a.val() * p,
    ;
    assert(flt::weight(0) == 0 && flt::weight(1) == 1);
    lemma_root_result(x, l, top, e, k);
    let m = root::nearest_root(x);
    assert(a.root() == flt::signed(false, m));
    assert(a.root().mag() == m);
}

proof fn lemma_root_result(x: int, l: int, top: int, e: int, k: nat)
    requires
        x > 0,
        0 < l < INF_MAG,
        top == pow2(k),
        54 <= k <= 2000,
        flt::weight(l) == top,
        e == pow2((k - 54) as nat),
        x <= top * top,
        flt::weight(0) == 0,
        flt::weight(1) == 1,
    ensures
        ({
            let m = root::nearest_root(x);
            let w = flt::weight(m);
            &&& 0 < m < INF_MAG
            &&& 0 <= w <= top
            &&& x <= (w + e) * (w + e)
            &&& w >= e ==> (w - e) * (w - e) <= x
        }),
{
    let first = flt::weight(1 - 1) + flt::weight(1);
    assert(first * first == 1) by (nonlinear_arith)
        requires
            first == 1,
    ;
    let r = lemma_root_search(x, 1, l);
    root::lemma_nearest_root(x, r);
    let m = r;
    let w = flt::weight(m);
    lemma_pow2_unfold((k - 53) as nat);
    lemma_pow2_pos((k - 54) as nat);
    flt::lemma_weight_step(m);
    flt::lemma_weight_step(m - 1);
    if m < l {
        flt::lemma_weight_lt(m, l);
    }
    if m - 1 < l {
        flt::lemma_weight_lt(m - 1, l);
    }
    lemma_step_below(m - 1, k);
    let down = w - flt::weight(m - 1);
    let below = 2 * w - down;
    if w >= e {
        assert((w - e) * (w - e) <= x) by (nonlinear_arith)
            requires
                below * below <= 4 * x,
                below == 2 * w - down,
                down <= 2 * e,
                w >= e,
        {
            assert(below >= 2 * (w - e));
            assert(below * below >= (2 * (w - e)) * (2 * (w - e)));
        }
    }
    if w < top {
        lemma_step_below(m, k);
        let up = flt::weight(m + 1) - w;
        let above = 2 * w + up;
        assert(x <= (w + e) * (w + e)) by (nonlinear_arith)
            requires
                4 * x <= above * above,
                above == 2 * w + up,
                0 <= up <= 2 * e,
                w >= 0,
        {
            assert(above <= 2 * (w + e));
            assert(above * above <= (2 * (w + e)) * (2 * (w + e)));
        }
    } else {
        assert(x <= (w + e) * (w + e)) by (nonlinear_arith)
            requires
                x <= w * w,
                w >= 0,
                e > 0,
        ;
    }
}

/// Every number that is not huge has a nearest square root.
proof fn lemma_root_exists(x: int)
    requires
        0 < x <= pow2(2000) as int * pow2(2000),
    ensures
        root::rounds_to_root(x, root::nearest_root(x)),
{
    lemma2_to64();
    lemma2_to64_rest();
    lemma_pow2_adds(52, 1948);
    flt::lemma_weight_split(1948, TWO52 as int);
    let l = 1948 * TWO52 + TWO52;
    flt::lemma_compare(Flt::zero(), Flt::zero());
    let first = flt::weight(1 - 1) + flt::weight(1);
    assert(first * first == 1) by (nonlinear_arith)
        requires
            first == 1,
    ;
    let r = lemma_root_search(x, 1, l);
}

/// Square roots grow with what they are taken of.
pub proof fn root_is_monotone(a: Flt, b: Flt)
    requires
        a.finite(),
        b.finite(),
        0 <= a.val() <= b.val(),
        b.val() * pow2(1074) <= pow2(2000) as int * pow2(2000),
    ensures
        0 <= a.root().val() <= b.root().val(),
{
    let p = pow2(1074) as int;
    lemma_pow2_pos(1074);
    order::lemma_positive(a);
    order::lemma_positive(b);
    flt::lemma_compare(a, b);
    let x = a.val() * p;
    let y = b.val() * p;
    assert(0 <= x <= y && (a.val() > 0 ==> x > 0) && (b.val() > 0 ==> y > 0)) by (nonlinear_arith)
        requires
            0 <= a.val() <= b.val(),
            p > 0,
            x == a.val() * p,
            y == b.val() * p,
    ;
    if b.val() > 0 {
        lemma_root_exists(y);
        let n = root::nearest_root(y);
        flt::lemma_weight_step(n);
        assert(b.root() == flt::signed(false, n));
        if a.val() > 0 {
            lemma_root_exists(x);
            let m = root::nearest_root(x);
            flt::lemma_weight_step(m);
            assert(a.root() == flt::signed(false, m));
            if m < n {
                flt::lemma_weight_lt(m, n);
            }
            if n < m {
                let below = flt::weight(m - 1) + flt::weight(m);
                let above = flt::weight(n) + flt::weight(n + 1);
                flt::lemma_weight_step(m - 1);
                flt::lemma_weight_step(n);
                if n + 1 < m {
                    flt::lemma_weight_lt(n, m - 1);
                    flt::lemma_weight_lt(n + 1, m);
                    assert(above * above < below * below) by (nonlinear_arith)
                        requires
                            0 <= above < below,
                    ;
                } else {
                    assert(x == y);
                }
            }
        }
    }
}

} // verus!

//! Rounding a string of binary digits to the nearest double.
use vstd::arithmetic::div_mod::*;
use vstd::arithmetic::mul::*;
use vstd::arithmetic::power2::*;
use vstd::prelude::*;

use crate::flt;
use crate::flt::{INF_MAG, TWO52, TWO53};

verus! {

/// `pow2(s)` for a positive `s`, 1 otherwise.
pub open spec fn up_scale(s: int) -> int {
    if s > 0 {
        pow2(s as nat) as int
    } else {
        1
    }
}

pub(crate) proof fn lemma_scales(s: int)
    ensures
        up_scale(s) > 0,
{
    lemma_pow2_pos(s as nat);
}

pub(crate) proof fn lemma_pow2_below_u128(k: nat)
    requires
        k < 128,
    ensures
        0 < pow2(k) <= u128::MAX,
        2 * pow2(127) == u128::MAX + 1,
{
    lemma2_to64();
    lemma2_to64_rest();
    lemma_pow2_adds(63, 64);
    lemma_pow2_pos(k);
    assert(pow2(63) * pow2(64) == 0x8000_0000_0000_0000 * 0x1_0000_0000_0000_0000);
    if k < 127 {
        lemma_pow2_strictly_increases(k, 127);
    }
}

/// `pow2(k)`, where it fits.
pub(crate) fn power_of_two(k: u32) -> (r: u128)
    requires
        k < 128,
    ensures
        r == pow2(k as nat),
{
    let mut r: u128 = 1;
    let mut i: u32 = 0;
    proof {
        lemma2_to64();
    }
    while i < k
        invariant
            i <= k < 128,
            r == pow2(i as nat),
        decreases k - i,
    {
        proof {
            lemma_pow2_unfold((i + 1) as nat);
            lemma_pow2_below_u128((i + 1) as nat);
        }
        r = r * 2;
        i = i + 1;
    }
    r
}

/// The number of binary digits of `m`.
pub(crate) fn bit_len(m: u128) -> (l: i32)
    ensures
        0 <= l <= 128,
        m == 0 ==> l == 0,
        m > 0 ==> l > 0 && pow2((l - 1) as nat) <= m < pow2(l as nat),
{
    if m == 0 {
        return 0;
    }
    let mut l: i32 = 1;
    let mut p: u128 = 1;
    proof {
        lemma2_to64();
    }
    while m / 2 >= p
        invariant
            1 <= l <= 128,
            p == pow2((l - 1) as nat),
            0 < p <= m,
        decreases m - p,
    {
        proof {
            lemma_pow2_unfold(l as nat);
            lemma_pow2_below_u128(127);
            if l >= 128 {
                lemma_pow2_unfold(128);
            }
        }
        p = p * 2;
        l = l + 1;
    }
    proof {
        lemma_pow2_unfold(l as nat);
    }
    l
}

/// What `m` digits of an exact value, and whether something follows them,
/// say about the value once the digits are split at the rounding place.
proof fn lemma_split(
    n: int,
    d: int,
    pu: int,
    pd: int,
    unit: int,
    p: int,
    half: int,
    m: int,
    q: int,
    rem: int,
    sticky: bool,
)
    requires
        d > 0,
        pu > 0,
        pd > 0,
        unit * pd == pu * p,
        p == 2 * half,
        m == q * p + rem,
        0 <= rem < p,
        m * pu * d <= n * pd,
        n * pd < (m + 1) * pu * d,
        sticky <==> n * pd != m * pu * d,
    ensures
        q * unit * d <= n,
        n < (q + 1) * unit * d,
        rem > half ==> 2 * n > (2 * q + 1) * unit * d,
        rem == half && sticky ==> 2 * n > (2 * q + 1) * unit * d,
        rem == half && !sticky ==> 2 * n == (2 * q + 1) * unit * d,
        rem < half ==> 2 * n < (2 * q + 1) * unit * d,
{
    let c = pu * d;
    let x = n * pd;
    assert(c > 0) by (nonlinear_arith)
        requires
            pu > 0,
            d > 0,
            c == pu * d,
    ;
    assert(m * pu * d == m * c && (m + 1) * pu * d == (m + 1) * c) by (nonlinear_arith)
        requires
            c == pu * d,
    ;
    assert forall|k: int| #[trigger] (k * unit * d) * pd == k * p * c by {
        assert((k * unit * d) * pd == k * (unit * pd) * d) by (nonlinear_arith);
        assert(k * (pu * p) * d == k * p * c) by (nonlinear_arith)
            requires
                c == pu * d,
        ;
    }
    let t0 = q * unit * d;
    let t1 = (q + 1) * unit * d;
    let th = (2 * q + 1) * unit * d;
    assert(t0 * pd == q * p * c);
    assert(t1 * pd == (q + 1) * p * c);
    assert(th * pd == (2 * q + 1) * p * c);
    assert(q * p * c <= m * c) by (nonlinear_arith)
        requires
            c > 0,
            q * p <= m,
    ;
    assert((m + 1) * c <= (q + 1) * p * c) by (nonlinear_arith)
        requires
            c > 0,
            m + 1 <= q * p + p,
    ;
    lemma_cancel(t0, n, pd);
    lemma_cancel_strict(n, t1, pd);
    assert((2 * q + 1) * p == 2 * (q * p) + p) by (nonlinear_arith);
    assert((2 * n) * pd == 2 * x) by (nonlinear_arith)
        requires
            x == n * pd,
    ;
    let mid = 2 * (q * p) + p;
    assert(th * pd == mid * c);
    if rem > half {
        assert(mid * c < 2 * (m * c)) by (nonlinear_arith)
            requires
                c > 0,
                mid < 2 * m,
        ;
        lemma_cancel_strict(th, 2 * n, pd);
    } else if rem < half {
        assert(2 * ((m + 1) * c) <= mid * c) by (nonlinear_arith)
            requires
                c > 0,
                2 * (m + 1) <= mid,
        ;
        lemma_cancel_strict(2 * n, th, pd);
    } else {
        assert(mid * c == 2 * (m * c)) by (nonlinear_arith)
            requires
                mid == 2 * m,
        ;
        if sticky {
            lemma_cancel_strict(th, 2 * n, pd);
        } else {
            lemma_cancel(th, 2 * n, pd);
            lemma_cancel(2 * n, th, pd);
        }
    }
}

pub(crate) proof fn lemma_cancel(a: int, b: int, k: int)
    requires
        k > 0,
        a * k <= b * k,
    ensures
        a <= b,
{
    assert(a <= b) by (nonlinear_arith)
        requires
            k > 0,
            a * k <= b * k,
    ;
}

pub(crate) proof fn lemma_cancel_strict(a: int, b: int, k: int)
    requires
        k > 0,
        a * k < b * k,
    ensures
        a < b,
{
    assert(a < b) by (nonlinear_arith)
        requires
            k > 0,
            a * k < b * k,
    ;
}

/// The digits above the rounding place, stepped up or not, are the magnitude
/// of the nearest double.
proof fn lemma_round_finish(n: int, d: int, sh: int, q: int, up: bool)
    requires
        d > 0,
        0 <= sh <= 2045,
        0 <= q < TWO53,
        sh == 0 || q >= TWO52,
        q * pow2(sh as nat) * d <= n,
        n < (q + 1) * pow2(sh as nat) * d,
        up ==> 2 * n >= (2 * q + 1) * pow2(sh as nat) * d,
        !up ==> 2 * n <= (2 * q + 1) * pow2(sh as nat) * d,
        2 * n == (2 * q + 1) * pow2(sh as nat) * d ==> (up <==> q % 2 == 1),
    ensures
        flt::rounds_to(n, d, sh * TWO52 + q + if up { 1int } else { 0 }),
{
    let unit = pow2(sh as nat) as int;
    let b = sh * TWO52 + q;
    flt::lemma_weight_split(sh, q);
    flt::lemma_weight_split(sh, q + 1);
    let w0 = flt::weight(b);
    let w1 = flt::weight(b + 1);
    assert(w0 == q * unit && w1 == (q + 1) * unit);
    assert((w0 + w1) * d == (2 * q + 1) * unit * d) by (nonlinear_arith)
        requires
            w0 == q * unit,
            w1 == (q + 1) * unit,
    ;
    assert(b % 2 == q % 2);
    if up {
        assert(b + 1 <= INF_MAG);
        flt::lemma_weight_step(b + 1);
        let w2 = flt::weight(b + 2);
        assert(2 * n < (w1 + w2) * d) by (nonlinear_arith)
            requires
                n < w1 * d,
                w1 < w2,
                d > 0,
        ;
    } else {
        if b > 0 {
            flt::lemma_weight_step(b - 1);
            let wp = flt::weight(b - 1);
            assert((wp + w0) * d < 2 * n) by (nonlinear_arith)
                requires
                    w0 * d <= n,
                    wp < w0,
                    d > 0,
            ;
        }
    }
}

/// `m`, scaled by `2^s`, holds the leading digits of `n / d`, and `sticky`
/// says whether anything follows them.
pub open spec fn digits_of(n: int, d: int, m: int, s: int, sticky: bool) -> bool {
    &&& d > 0
    &&& n >= 0
    &&& m * up_scale(s) * d <= n * up_scale(-s)
    &&& n * up_scale(-s) < (m + 1) * up_scale(s) * d
    &&& (sticky <==> n * up_scale(-s) != m * up_scale(s) * d)
}

/// Rounds the value whose leading digits are `m` scaled by `2^s` to the
/// nearest double, and returns its magnitude bits.
pub(crate) fn round_mag(m: u128, s: i32, sticky: bool, Ghost(n): Ghost<int>, Ghost(d): Ghost<int>) -> (r: u64)
    requires
        -4000 <= s <= 4000,
        digits_of(n, d, m as int, s as int, sticky),
        sticky ==> m >= 2 * TWO53,
    ensures
        flt::rounds_to(n, d, r as int),
        r <= INF_MAG,
{
    let ghost pu = up_scale(s as int);
    let ghost pd = up_scale(-s);
    proof {
        lemma_scales(s as int);
        lemma_scales(-s);
        lemma2_to64();
        lemma2_to64_rest();
        lemma_pow2_below_u128(127);
    }
    if m == 0 {
        proof {
            reveal(flt::weight);
            assert(n == 0) by (nonlinear_arith)
                requires
                    n >= 0,
                    pd > 0,
                    n * pd == 0 * pu * d,
            ;
            assert((flt::weight(0) + flt::weight(1)) * d == d);
        }
        return 0;
    }
    let l: i32 = bit_len(m);
    if l + s >= 2099 {
        proof {
            lemma_overflow(n, d, m as int, s as int, l as int);
        }
        return INF_MAG;
    }
    let sh: i32 = if l + s > 53 {
        l + s - 53
    } else {
        0
    };
    let drop: i32 = sh - s;
    let ghost unit = pow2(sh as nat) as int;
    let q: u128;
    let up: bool;
    proof {
        if sticky {
            assert(l >= 55) by {
                lemma_pow2_unfold(54);
                if l < 55 {
                    if l < 54 {
                        lemma_pow2_strictly_increases(l as nat, 54);
                    }
                }
            }
        }
        assert(drop >= l - 53);
    }
    if drop <= 0 {
        let f: u128 = power_of_two((-drop) as u32);
        proof {
            // The digits end above the rounding place.
            lemma_pow2_adds((s - sh) as nat, sh as nat);
            lemma_pow2_adds((s - sh) as nat, l as nat);
            assert(m * f < pow2((l - drop) as nat)) by (nonlinear_arith)
                requires
                    m < pow2(l as nat),
                    f > 0,
                    pow2((l - drop) as nat) == f * pow2(l as nat),
            ;
            assert(l - drop <= 53);
            if l - drop < 53 {
                lemma_pow2_strictly_increases((l - drop) as nat, 53);
            }
            if sh > 0 {
                lemma_pow2_adds((s - sh) as nat, (l - 1) as nat);
                assert(m * f >= pow2(52)) by (nonlinear_arith)
                    requires
                        m >= pow2((l - 1) as nat),
                        f > 0,
                        pow2(52) == f * pow2((l - 1) as nat),
                ;
            }
        }
        q = m * f;
        up = false;
        proof {
            assert(pu == f * unit && pd == 1) by {
                if s == 0 {
                    assert(sh == 0 && f == 1 && unit == 1);
                }
            }
            assert(n == q * unit * d) by (nonlinear_arith)
                requires
                    n * pd == m * pu * d,
                    pd == 1,
                    pu == f * unit,
                    q == m * f,
            ;
            lemma_pow2_pos(sh as nat);
            assert(unit * d > 0) by (nonlinear_arith)
                requires
                    unit > 0,
                    d > 0,
            ;
            assert((q + 1) * unit * d == q * unit * d + unit * d) by (nonlinear_arith);
            assert((2 * q + 1) * unit * d == 2 * (q * unit * d) + unit * d) by (nonlinear_arith);
        }
    } else {
        let ghost p = pow2(drop as nat) as int;
        let ghost half = pow2((drop - 1) as nat) as int;
        let rem: u128;
        let above: bool;
        let tie: bool;
        proof {
            lemma_pow2_unfold(drop as nat);
        }
        if drop < 128 {
            let f: u128 = power_of_two(drop as u32);
            proof {
                lemma_pow2_pos(drop as nat);
            }
            q = m / f;
            rem = m % f;
            above = rem > f / 2;
            tie = rem == f / 2;
            proof {
                lemma_fundamental_div_mod(m as int, p);
                lemma_mul_is_commutative(p, q as int);
            }
        } else {
            q = 0;
            rem = m;
            above = drop == 128 && rem > power_of_two(127);
            tie = drop == 128 && rem == power_of_two(127);
            proof {
                if drop > 128 {
                    lemma_pow2_unfold(128);
                    if drop > 129 {
                        lemma_pow2_strictly_increases(128, (drop - 1) as nat);
                    }
                }
            }
        }
        up = above || (tie && (sticky || q % 2 == 1));
        proof {
            assert(unit * pd == pu * p) by {
                if s > 0 {
                    lemma_pow2_adds(s as nat, drop as nat);
                } else {
                    lemma_pow2_adds(sh as nat, (-s) as nat);
                    assert(pu == 1);
                    if s == 0 {
                        assert(pow2(0) == 1);
                    }
                    assert(pd == pow2((-s) as nat));
                }
            }
            lemma_split(n, d, pu, pd, unit, p, half, m as int, q as int, rem as int, sticky);
            lemma_quotient(m as int, q as int, rem as int, l as int, drop as int);
        }
    }
    proof {
        lemma_round_finish(n, d, sh as int, q as int, up);
        assert(sh * TWO52 + q + 1 <= INF_MAG);
    }
    sh as u64 * TWO52 + q as u64 + if up {
        1
    } else {
        0
    }
}

/// Dividing an `l`-digit number by `2^drop` leaves `l - drop` digits.
proof fn lemma_quotient(m: int, q: int, rem: int, l: int, drop: int)
    requires
        l > 0,
        drop > 0,
        drop >= l - 53,
        pow2((l - 1) as nat) <= m < pow2(l as nat),
        m == q * pow2(drop as nat) + rem,
        0 <= rem < pow2(drop as nat),
    ensures
        0 <= q < TWO53,
        drop == l - 53 ==> q >= TWO52,
{
    let p = pow2(drop as nat) as int;
    lemma2_to64();
    lemma2_to64_rest();
    lemma_pow2_pos(drop as nat);
    lemma_pow2_adds(53, drop as nat);
    if l < drop + 53 {
        lemma_pow2_strictly_increases(l as nat, (drop + 53) as nat);
    }
    assert(0 <= q < TWO53) by (nonlinear_arith)
        requires
            m == q * p + rem,
            0 <= rem < p,
            0 <= m < TWO53 * p,
    ;
    if drop == l - 53 {
        lemma_pow2_adds(52, drop as nat);
        lemma_pow2_pos(drop as nat);
        assert(q >= TWO52) by (nonlinear_arith)
            requires
                m == q * p + rem,
                rem < p,
                m >= TWO52 * p,
                p > 0,
        ;
    }
}

/// Digits that reach past the largest exponent stand for a value that rounds
/// to infinity.
proof fn lemma_overflow(n: int, d: int, m: int, s: int, l: int)
    requires
        m > 0,
        0 < l <= 128,
        -4000 <= s <= 4000,
        digits_of(n, d, m, s, n * up_scale(-s) != m * up_scale(s) * d),
        pow2((l - 1) as nat) <= m,
        l + s >= 2099,
    ensures
        flt::rounds_to(n, d, INF_MAG as int),
{
    lemma2_to64_rest();
    lemma2_to64();
    flt::lemma_weight_split(2045, TWO53 as int);
    lemma_pow2_adds(53, 2045);
    let w = flt::weight(INF_MAG as int);
    assert(w == pow2(2098));
    assert(2045 * TWO52 + TWO53 == INF_MAG);
    assert(s > 0);
    let pu = up_scale(s);
    lemma_scales(s);
    lemma_pow2_adds((l - 1) as nat, s as nat);
    assert(pow2(2098) <= pow2((l - 1 + s) as nat)) by {
        if l - 1 + s > 2098 {
            lemma_pow2_strictly_increases(2098, (l - 1 + s) as nat);
        }
    }
    assert(m * pu >= w) by (nonlinear_arith)
        requires
            m >= pow2((l - 1) as nat),
            pow2((l - 1) as nat) * pu >= w,
            pu > 0,
    ;
    assert(n >= w * d) by (nonlinear_arith)
        requires
            m * pu * d <= n * up_scale(-s),
            up_scale(-s) == 1,
            m * pu >= w,
            d > 0,
    ;
    flt::lemma_weight_step(INF_MAG - 1);
    let wp = flt::weight(INF_MAG - 1);
    assert((wp + w) * d < 2 * n) by (nonlinear_arith)
        requires
            n >= w * d,
            wp < w,
            d > 0,
    ;
}

} // verus!

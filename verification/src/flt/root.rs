//! The square root.
use vstd::arithmetic::div_mod::*;
use vstd::arithmetic::mul::*;
use vstd::arithmetic::power2::*;
use vstd::prelude::*;

use crate::flt;
use crate::flt::arith;
use crate::flt::rounding;
use crate::flt::{Flt, INF_MAG, NAN_MAG, TWO52, TWO53};

verus! {

/// `m` is the magnitude of the double nearest to the square root of `x`.
pub open spec fn rounds_to_root(x: int, m: int) -> bool {
    let below = flt::weight(m - 1) + flt::weight(m);
    let above = flt::weight(m) + flt::weight(m + 1);
    &&& 0 < m < INF_MAG
    &&& below * below <= 4 * x <= above * above
    &&& below * below == 4 * x || above * above == 4 * x ==> m % 2 == 0
}

/// The magnitude of the double nearest to the square root of `x`.
pub open spec fn nearest_root(x: int) -> int {
    choose|m: int| rounds_to_root(x, m)
}

impl Flt {
    /// The correctly rounded square root.
    pub open spec fn root(self) -> Flt {
        if self.nan() {
            flt::signed(false, NAN_MAG as int)
        } else if self.mag() == 0 {
            self
        } else if self.neg() {
            flt::signed(false, NAN_MAG as int)
        } else if self.infinite() {
            self
        } else {
            flt::signed(false, nearest_root(flt::weight(self.mag()) * pow2(1074)))
        }
    }
}

proof fn lemma_square_lt(a: int, b: int)
    requires
        0 <= a < b,
    ensures
        a * a < b * b,
{
    assert(a * a < b * b) by (nonlinear_arith)
        requires
            0 <= a < b,
    ;
}

proof fn lemma_root_ordered(x: int, a: int, b: int)
    requires
        rounds_to_root(x, a),
        rounds_to_root(x, b),
        a <= b,
    ensures
        a == b,
{
    let lo = flt::weight(a) + flt::weight(a + 1);
    let hi = flt::weight(b - 1) + flt::weight(b);
    flt::lemma_weight_step(a);
    flt::lemma_weight_step(a - 1);
    if a + 1 < b {
        flt::lemma_weight_lt(a, b - 1);
        flt::lemma_weight_lt(a + 1, b);
        lemma_square_lt(lo, hi);
    }
}

/// There is only one.
pub proof fn lemma_nearest_root(x: int, m: int)
    requires
        rounds_to_root(x, m),
    ensures
        nearest_root(x) == m,
{
    let k = nearest_root(x);
    assert(rounds_to_root(x, k));
    if k <= m {
        lemma_root_ordered(x, k, m);
    } else {
        lemma_root_ordered(x, m, k);
    }
}

/// The whole part of the square root of `n`.
fn floor_sqrt(n: u128) -> (r: u128)
    ensures
        r * r <= n < (r + 1) * (r + 1),
        r < 0x1_0000_0000_0000_0000,
{
    let mut lo: u128 = 0;
    let mut hi: u128 = 0x1_0000_0000_0000_0000;
    assert(0x1_0000_0000_0000_0000int * 0x1_0000_0000_0000_0000int == u128::MAX + 1);
    while hi - lo > 1
        invariant
            0 <= lo < hi <= 0x1_0000_0000_0000_0000,
            lo * lo <= n,
            n < hi * hi,
        decreases hi - lo,
    {
        let mid: u128 = lo + (hi - lo) / 2;
        proof {
            assert(mid * mid <= 0xffff_ffff_ffff_ffff * 0xffff_ffff_ffff_ffff) by (nonlinear_arith)
                requires
                    0 <= mid <= 0xffff_ffff_ffff_ffff,
            ;
        }
        if mid * mid <= n {
            lo = mid;
        } else {
            hi = mid;
        }
    }
    assert(hi == lo + 1);
    lo
}

/// Where the digits of the root are split at the rounding place, stepping up
/// past the half gives the nearest double.
proof fn lemma_root_finish(
    x: int,
    num: int,
    r: int,
    h: int,
    p: int,
    half: int,
    q: int,
    rem: int,
    sh: int,
    up: bool,
)
    requires
        x == num * (pow2(h as nat) * pow2(h as nat)),
        r * r <= num < (r + 1) * (r + 1),
        r == q * p + rem,
        0 <= rem < p,
        p == 2 * half,
        h >= 0,
        0 <= sh <= 2044,
        pow2(sh as nat) == p * pow2(h as nat),
        TWO52 <= q < TWO53,
        up <==> rem > half || (rem == half && (r * r != num || q % 2 == 1)),
    ensures
        rounds_to_root(x, sh * TWO52 + q + if up { 1int } else { 0 }),
{
    let unit = pow2(sh as nat) as int;
    let ph = pow2(h as nat) as int;
    let b = sh * TWO52 + q;
    lemma_pow2_pos(h as nat);
    lemma_pow2_pos(sh as nat);
    flt::lemma_weight_split(sh, q);
    flt::lemma_weight_split(sh, q + 1);
    flt::lemma_weight_step(b - 1);
    flt::lemma_weight_step(b + 1);
    let wp = flt::weight(b - 1);
    let w0 = flt::weight(b);
    let w1 = flt::weight(b + 1);
    let w2 = flt::weight(b + 2);
    assert(w0 == (q * p) * ph && w1 == (q * p + p) * ph) by (nonlinear_arith)
        requires
            w0 == q * unit,
            w1 == (q + 1) * unit,
            unit == p * ph,
    ;
    assert(w0 + w1 == (2 * (q * p) + p) * ph) by (nonlinear_arith)
        requires
            w0 == (q * p) * ph,
            w1 == (q * p + p) * ph,
    ;
    let qp = q * p;
    assert(qp >= 0) by (nonlinear_arith)
        requires
            q >= 0,
            p > 0,
            qp == q * p,
    ;
    let pp = ph * ph;
    assert(pp > 0) by (nonlinear_arith)
        requires
            ph > 0,
            pp == ph * ph,
    ;
    // Every bound is a square times `pp`.
    assert forall|k: int| #[trigger] ((k * ph) * (k * ph)) == (k * k) * pp by {
        assert((k * ph) * (k * ph) == (k * k) * (ph * ph)) by (nonlinear_arith);
    }
    let mid = 2 * qp + p;
    assert((w0 + w1) * (w0 + w1) == (mid * mid) * pp);
    assert(b % 2 == q % 2);
    if rem > half || (rem == half && r * r != num) {
        assert(mid * mid < 4 * num) by (nonlinear_arith)
            requires
                mid < 2 * r || (mid == 2 * r && r * r < num),
                r * r <= num,
                mid >= 0,
        ;
    } else if rem == half {
        assert(mid * mid == 4 * num) by (nonlinear_arith)
            requires
                mid == 2 * r,
                r * r == num,
        ;
    } else {
        assert(4 * num < mid * mid) by (nonlinear_arith)
            requires
                2 * (r + 1) <= mid,
                num < (r + 1) * (r + 1),
                r >= 0,
        ;
    }
    assert(4 * x == (4 * num) * pp) by (nonlinear_arith)
        requires
            x == num * pp,
    ;
    lemma_scale_order(mid * mid, 4 * num, pp);
    if up {
        // Below the next double up.
        let top = 2 * (qp + p);
        assert(w1 + w1 == top * ph) by (nonlinear_arith)
            requires
                w1 == (qp + p) * ph,
                top == 2 * (qp + p),
        ;
        assert(4 * num < top * top) by (nonlinear_arith)
            requires
                2 * (r + 1) <= top,
                num < (r + 1) * (r + 1),
                r >= 0,
        ;
        lemma_scale_order(4 * num, top * top, pp);
        assert((w1 + w1) * (w1 + w1) == (top * top) * pp);
        lemma_square_lt(w1 + w1, w1 + w2);
    } else {
        let base = 2 * qp;
        assert(w0 + w0 == base * ph) by (nonlinear_arith)
            requires
                w0 == qp * ph,
                base == 2 * qp,
        ;
        assert(base * base <= 4 * num) by (nonlinear_arith)
            requires
                0 <= base <= 2 * r,
                r * r <= num,
        ;
        lemma_scale_order(base * base, 4 * num, pp);
        assert((w0 + w0) * (w0 + w0) == (base * base) * pp);
        lemma_square_lt(wp + w0, w0 + w0);
    }
}

proof fn lemma_scale_order(a: int, b: int, k: int)
    requires
        k > 0,
    ensures
        a < b ==> a * k < b * k,
        a <= b ==> a * k <= b * k,
        b < a ==> b * k < a * k,
{
    assert(a < b ==> a * k < b * k) by (nonlinear_arith)
        requires
            k > 0,
    ;
    assert(b < a ==> b * k < a * k) by (nonlinear_arith)
        requires
            k > 0,
    ;
}

impl Flt {
    /// The rounded square root.
    pub fn sqrt(self) -> (r: Flt)
        ensures
            r == self.root(),
    {
        if self.is_nan() {
            return Flt::build(false, NAN_MAG);
        }
        if self.magnitude() == 0 {
            return self;
        }
        if self.is_negative() {
            return Flt::build(false, NAN_MAG);
        }
        if !self.is_finite() {
            return self;
        }
        let (sig, e) = arith::split(self.magnitude());
        let l: i32 = rounding::bit_len(sig as u128);
        proof {
            lemma2_to64();
            lemma2_to64_rest();
            if l > 54 {
                lemma_pow2_strictly_increases(53, (l - 1) as nat);
            }
        }
        // An even exponent is left once the significand is stretched by `j`.
        let j: i32 = if (e as i32 + 1074 - (126 - l)) % 2 == 0 {
            126 - l
        } else {
            127 - l
        };
        let h: i32 = (e as i32 + 1074 - j) / 2;
        let f: u128 = rounding::power_of_two(j as u32);
        let ghost x = flt::weight(self.mag()) * pow2(1074);
        proof {
            rounding::lemma_pow2_below_u128(127);
            lemma_pow2_adds(j as nat, l as nat);
            lemma_pow2_adds(j as nat, (l - 1) as nat);
            lemma_pow2_pos(j as nat);
            lemma_pow2_unfold(127);
            lemma_pow2_unfold(126);
            assert(sig * f < pow2((j + l) as nat) && sig * f >= pow2((j + l - 1) as nat))
                by (nonlinear_arith)
                requires
                    pow2((l - 1) as nat) <= sig < pow2(l as nat),
                    f > 0,
                    pow2((j + l) as nat) == f * pow2(l as nat),
                    pow2((j + l - 1) as nat) == f * pow2((l - 1) as nat),
            ;
        }
        let num: u128 = sig as u128 * f;
        let r: u128 = floor_sqrt(num);
        let rl: i32 = rounding::bit_len(r);
        proof {
            // The root of a 126- or 127-digit number has 63 or 64 digits.
            lemma_pow2_adds(62, 63);
            lemma_pow2_adds(62, 62);
            assert(num >= pow2(125));
            assert(r + 1 > pow2(62)) by (nonlinear_arith)
                requires
                    num < (r + 1) * (r + 1),
                    num >= pow2(62) * pow2(62),
                    r >= 0,
            ;
            if rl < 63 {
                if rl < 62 {
                    lemma_pow2_strictly_increases(rl as nat, 62);
                }
            }
            if rl > 64 {
                if rl > 65 {
                    lemma_pow2_strictly_increases(64, (rl - 1) as nat);
                }
            }
        }
        let drop: i32 = rl - 53;
        let p: u128 = rounding::power_of_two(drop as u32);
        let ghost half = pow2((drop - 1) as nat) as int;
        proof {
            lemma_pow2_unfold(drop as nat);
            lemma_pow2_pos(drop as nat);
        }
        let q: u128 = r / p;
        let rem: u128 = r % p;
        proof {
            lemma_fundamental_div_mod(r as int, p as int);
            lemma_mul_is_commutative(p as int, q as int);
            assert(r * r <= u128::MAX);
        }
        let up: bool = rem > p / 2 || (rem == p / 2 && (r * r != num || q % 2 == 1));
        let sh: i32 = h + drop;
        proof {
            lemma_pow2_adds(53, drop as nat);
            lemma_pow2_adds(52, drop as nat);
            assert(TWO52 <= q < TWO53) by (nonlinear_arith)
                requires
                    r == q * p + rem,
                    0 <= rem < p,
                    TWO52 * p <= r < TWO53 * p,
            ;
            lemma_pow2_adds(drop as nat, h as nat);
            let pe = pow2(e as nat) as int;
            let ph = pow2(h as nat) as int;
            lemma_pow2_adds(e as nat, 1074);
            lemma_pow2_adds(h as nat, h as nat);
            lemma_pow2_adds(j as nat, (h + h) as nat);
            assert(x == num * (ph * ph)) by (nonlinear_arith)
                requires
                    x == (sig * pe) * pow2(1074),
                    pe * pow2(1074) == f * (ph * ph),
                    num == sig * f,
            ;
            lemma_root_finish(
                x,
                num as int,
                r as int,
                h as int,
                p as int,
                half,
                q as int,
                rem as int,
                sh as int,
                up,
            );
            lemma_nearest_root(x, sh * TWO52 + q + if up { 1int } else { 0 });
        }
        Flt::build(
            false,
            sh as u64 * TWO52 + q as u64 + if up {
                1
            } else {
                0
            },
        )
    }
}

} // verus!

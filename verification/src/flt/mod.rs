//! IEEE 754 binary64 numbers, held by their bit pattern.
//!
//! Every finite double is an integer multiple of 2^-1074, so the value of a
//! number is stated as that integer. Arithmetic is correctly rounded (to
//! nearest, ties to even), and stated against the exact result.
use vstd::arithmetic::div_mod::*;
use vstd::arithmetic::mul::*;
use vstd::arithmetic::power2::*;
use vstd::prelude::*;

pub mod arith;
pub mod consts;
pub mod convert;
pub mod error;
pub mod near;
pub mod order;
pub mod root;
pub mod rounding;

verus! {

/// 2^52: the hidden bit of a significand, and one step of the exponent field.
pub const TWO52: u64 = 0x10_0000_0000_0000;

/// 2^53: significands lie below it.
pub const TWO53: u64 = 0x20_0000_0000_0000;

/// 2^63: the sign bit.
pub const TWO63: u64 = 0x8000_0000_0000_0000;

/// The magnitude bits of infinity; larger magnitudes are NaN.
pub const INF_MAG: u64 = 0x7ff0_0000_0000_0000;

/// The magnitude bits of the NaN that arithmetic returns.
pub const NAN_MAG: u64 = 0x7ff8_0000_0000_0000;

/// A double, held by its bit pattern. `==` compares patterns, not values.
#[derive(Clone, Copy, Debug, PartialEq, Eq, Structural)]
pub struct Flt {
    /// The 64 bits of the number.
    pub bits: u64,
}

/// The value, in units of 2^-1074, of the double with magnitude bits `m`.
/// Past the largest finite double the same formula goes on: infinity counts
/// as the power of two that would follow.
#[verifier::opaque]
pub open spec fn weight(m: int) -> int {
    if m < TWO52 {
        m
    } else {
        (TWO52 + m % (TWO52 as int)) * pow2((m / (TWO52 as int) - 1) as nat)
    }
}

/// `m` is the magnitude of the double nearest to `n / d` (in units of
/// 2^-1074): the exact value lies between the midpoints to its neighbours,
/// and where it lies on a midpoint, `m` is even.
pub open spec fn rounds_to(n: int, d: int, m: int) -> bool {
    &&& 0 <= m <= INF_MAG
    &&& m > 0 ==> (weight(m - 1) + weight(m)) * d <= 2 * n
    &&& m > 0 && (weight(m - 1) + weight(m)) * d == 2 * n ==> m % 2 == 0
    &&& m < INF_MAG ==> 2 * n <= (weight(m) + weight(m + 1)) * d
    &&& m < INF_MAG && 2 * n == (weight(m) + weight(m + 1)) * d ==> m % 2 == 0
}

/// The magnitude of the double nearest to `n / d`.
pub open spec fn nearest(n: int, d: int) -> int {
    choose|m: int| rounds_to(n, d, m)
}

/// A magnitude split into exponent steps and significand weighs as much as
/// the significand shifted by the steps.
pub proof fn lemma_weight_split(e: int, q: int)
    requires
        0 <= e,
        0 <= q <= TWO53,
        e == 0 || q >= TWO52,
    ensures
        weight(e * TWO52 + q) == q * pow2(e as nat),
{
    let m = e * TWO52 + q;
    reveal(weight);
    lemma2_to64();
    if q < TWO52 {
        assert(e as nat == 0);
        assert(q * pow2(0) == q) by (nonlinear_arith)
            requires
                pow2(0) == 1,
        ;
    } else if q < TWO53 {
        assert(m / (TWO52 as int) == e + 1 && m % (TWO52 as int) == q - TWO52) by {
            lemma_fundamental_div_mod_converse(m, TWO52 as int, e + 1, q - TWO52);
        }
        assert((m / (TWO52 as int) - 1) as nat == e as nat);
    } else {
        assert(m / (TWO52 as int) == e + 2 && m % (TWO52 as int) == 0) by {
            lemma_fundamental_div_mod_converse(m, TWO52 as int, e + 2, 0);
        }
        lemma_pow2_unfold((e + 1) as nat);
        assert(TWO52 * (2 * pow2(e as nat)) == TWO53 * pow2(e as nat)) by (nonlinear_arith);
    }
}

/// Neighbouring magnitudes differ in weight by one unit of the exponent.
pub proof fn lemma_weight_step(m: int)
    requires
        0 <= m,
    ensures
        0 <= weight(m) < weight(m + 1),
{
    let (e, q) = if m < TWO52 {
        (0int, m)
    } else {
        (m / (TWO52 as int) - 1, TWO52 + m % (TWO52 as int))
    };
    assert(m == e * TWO52 + q) by {
        lemma_fundamental_div_mod(m, TWO52 as int);
    }
    lemma_weight_split(e, q);
    lemma_weight_split(e, q + 1);
    lemma_pow2_pos(e as nat);
    assert(0 <= q * pow2(e as nat) < (q + 1) * pow2(e as nat)) by (nonlinear_arith)
        requires
            0 <= q,
            pow2(e as nat) > 0,
    ;
}

/// Larger magnitude bits stand for larger numbers.
pub proof fn lemma_weight_lt(a: int, b: int)
    requires
        0 <= a < b,
    ensures
        0 <= weight(a) < weight(b),
    decreases b - a,
{
    lemma_weight_step(a);
    if a + 1 < b {
        lemma_weight_lt(a + 1, b);
    }
}

/// There is only one nearest double.
pub proof fn lemma_nearest(n: int, d: int, m: int)
    requires
        d > 0,
        rounds_to(n, d, m),
    ensures
        nearest(n, d) == m,
{
    let k = nearest(n, d);
    assert(rounds_to(n, d, k));
    if k <= m {
        lemma_nearest_ordered(n, d, k, m);
    } else {
        lemma_nearest_ordered(n, d, m, k);
    }
}

proof fn lemma_nearest_ordered(n: int, d: int, a: int, b: int)
    requires
        d > 0,
        rounds_to(n, d, a),
        rounds_to(n, d, b),
        a <= b,
    ensures
        a == b,
{
    let lo = weight(a) + weight(a + 1);
    let hi = weight(b - 1) + weight(b);
    if a + 1 < b {
        lemma_weight_lt(a, b - 1);
        lemma_weight_lt(a + 1, b);
        assert(lo * d < hi * d) by (nonlinear_arith)
            requires
                lo < hi,
                d > 0,
        ;
    }
}

/// The double with this sign and these magnitude bits.
pub open spec fn signed(neg: bool, mag: int) -> Flt {
    Flt {
        bits: (mag + if neg {
            TWO63 as int
        } else {
            0
        }) as u64,
    }
}

impl Flt {
    /// The bits below the sign.
    pub open spec fn mag(self) -> int {
        self.bits as int % (TWO63 as int)
    }

    /// The sign bit is set.
    pub open spec fn neg(self) -> bool {
        self.bits >= TWO63
    }

    /// Not a number.
    pub open spec fn nan(self) -> bool {
        self.mag() > INF_MAG
    }

    /// One of the two infinities.
    pub open spec fn infinite(self) -> bool {
        self.mag() == INF_MAG
    }

    /// A number that is no infinity.
    pub open spec fn finite(self) -> bool {
        self.mag() < INF_MAG
    }

    /// The value in units of 2^-1074, of a double that is not NaN.
    pub open spec fn val(self) -> int {
        if self.neg() {
            -weight(self.mag())
        } else {
            weight(self.mag())
        }
    }

    /// The place in the total order of all bit patterns: negative NaNs,
    /// then the numbers by value with -0 before +0, then positive NaNs.
    pub open spec fn rank(self) -> int {
        if self.neg() {
            -self.mag() - 1
        } else {
            self.mag()
        }
    }

    /// `self < o`; false where either is NaN.
    pub open spec fn less(self, o: Flt) -> bool {
        !self.nan() && !o.nan() && self.val() < o.val()
    }

    /// `self <= o`; false where either is NaN.
    pub open spec fn at_most(self, o: Flt) -> bool {
        !self.nan() && !o.nan() && self.val() <= o.val()
    }

    /// The larger of the two; a NaN gives way to the other.
    pub open spec fn larger(self, o: Flt) -> Flt {
        if self.nan() || self.less(o) {
            o
        } else {
            self
        }
    }

    /// The smaller of the two; a NaN gives way to the other.
    pub open spec fn smaller(self, o: Flt) -> Flt {
        if self.nan() || o.less(self) {
            o
        } else {
            self
        }
    }

    /// The number with its sign turned.
    pub open spec fn negated(self) -> Flt {
        signed(!self.neg(), self.mag())
    }

    /// The correctly rounded sum.
    pub open spec fn plus(self, o: Flt) -> Flt {
        if self.nan() || o.nan() {
            signed(false, NAN_MAG as int)
        } else if self.infinite() {
            if o.infinite() && self.neg() != o.neg() {
                signed(false, NAN_MAG as int)
            } else {
                self
            }
        } else if o.infinite() {
            o
        } else {
            let x = self.val() + o.val();
            if x == 0 {
                signed(self.neg() && o.neg(), 0)
            } else if x < 0 {
                signed(true, nearest(-x, 1))
            } else {
                signed(false, nearest(x, 1))
            }
        }
    }

    /// The correctly rounded difference.
    pub open spec fn minus(self, o: Flt) -> Flt {
        self.plus(o.negated())
    }

    /// The correctly rounded product.
    pub open spec fn times(self, o: Flt) -> Flt {
        let neg = self.neg() != o.neg();
        if self.nan() || o.nan() {
            signed(false, NAN_MAG as int)
        } else if self.infinite() || o.infinite() {
            if self.mag() == 0 || o.mag() == 0 {
                signed(false, NAN_MAG as int)
            } else {
                signed(neg, INF_MAG as int)
            }
        } else {
            signed(neg, nearest(weight(self.mag()) * weight(o.mag()), pow2(1074) as int))
        }
    }

    /// The correctly rounded quotient.
    pub open spec fn over(self, o: Flt) -> Flt {
        let neg = self.neg() != o.neg();
        if self.nan() || o.nan() || (self.infinite() && o.infinite()) || (self.mag() == 0
            && o.mag() == 0) {
            signed(false, NAN_MAG as int)
        } else if self.infinite() || o.mag() == 0 {
            signed(neg, INF_MAG as int)
        } else if o.infinite() {
            signed(neg, 0)
        } else {
            signed(neg, nearest(weight(self.mag()) * pow2(1074), weight(o.mag())))
        }
    }
}

impl Flt {
    /// The double with these bits.
    pub fn from_bits(bits: u64) -> (r: Flt)
        ensures
            r.bits == bits,
    {
        Flt { bits }
    }

    /// Its bits.
    pub fn to_bits(self) -> (r: u64)
        ensures
            r == self.bits,
    {
        self.bits
    }

    pub(crate) fn build(neg: bool, mag: u64) -> (r: Flt)
        requires
            mag < TWO63,
        ensures
            r == signed(neg, mag as int),
            r.mag() == mag,
            r.neg() == neg,
    {
        Flt {
            bits: if neg {
                TWO63 + mag
            } else {
                mag
            },
        }
    }

    pub(crate) fn magnitude(self) -> (r: u64)
        ensures
            r == self.mag(),
            r < TWO63,
    {
        self.bits % TWO63
    }

    /// The sign bit is set.
    pub fn is_negative(self) -> (r: bool)
        ensures
            r == self.neg(),
    {
        self.bits >= TWO63
    }

    /// Not a number.
    pub fn is_nan(self) -> (r: bool)
        ensures
            r == self.nan(),
    {
        self.magnitude() > INF_MAG
    }

    /// Neither infinite nor NaN.
    pub fn is_finite(self) -> (r: bool)
        ensures
            r == self.finite(),
    {
        self.magnitude() < INF_MAG
    }

    /// The place of the bit pattern in the total order.
    pub fn total_rank(self) -> (r: i64)
        ensures
            r == self.rank(),
    {
        let mag: u64 = self.magnitude();
        if self.is_negative() {
            -(mag as i64) - 1
        } else {
            mag as i64
        }
    }

    /// `self < o`.
    pub fn lt(self, o: Flt) -> (r: bool)
        ensures
            r == self.less(o),
    {
        let a: u64 = self.magnitude();
        let b: u64 = o.magnitude();
        proof {
            lemma_compare(self, o);
        }
        if a > INF_MAG || b > INF_MAG {
            false
        } else if self.is_negative() {
            if o.is_negative() {
                b < a
            } else {
                a > 0 || b > 0
            }
        } else {
            !o.is_negative() && a < b
        }
    }

    /// `self <= o`.
    pub fn le(self, o: Flt) -> (r: bool)
        ensures
            r == self.at_most(o),
    {
        !self.is_nan() && !o.is_nan() && !o.lt(self)
    }

    /// The larger of the two.
    pub fn max(self, o: Flt) -> (r: Flt)
        ensures
            r == self.larger(o),
    {
        if self.is_nan() || self.lt(o) {
            o
        } else {
            self
        }
    }

    /// The smaller of the two.
    pub fn min(self, o: Flt) -> (r: Flt)
        ensures
            r == self.smaller(o),
    {
        if self.is_nan() || o.lt(self) {
            o
        } else {
            self
        }
    }

    /// The number with its sign turned.
    pub fn negate(self) -> (r: Flt)
        ensures
            r == self.negated(),
    {
        Flt::build(!self.is_negative(), self.magnitude())
    }
}

/// Comparing values is comparing sign and magnitude bits.
pub(crate) proof fn lemma_compare(a: Flt, b: Flt)
    ensures
        a.mag() < b.mag() ==> weight(a.mag()) < weight(b.mag()),
        b.mag() < a.mag() ==> weight(b.mag()) < weight(a.mag()),
        weight(0) == 0,
        weight(1) == 1,
        a.mag() > 0 ==> weight(a.mag()) > 0,
        b.mag() > 0 ==> weight(b.mag()) > 0,
{
    reveal(weight);
    if a.mag() < b.mag() {
        lemma_weight_lt(a.mag(), b.mag());
    }
    if b.mag() < a.mag() {
        lemma_weight_lt(b.mag(), a.mag());
    }
    if a.mag() > 0 {
        lemma_weight_lt(0, a.mag());
    }
    if b.mag() > 0 {
        lemma_weight_lt(0, b.mag());
    }
}

} // verus!

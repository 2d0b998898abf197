//! Random numbers that depend on a textual seed alone.
use vstd::arithmetic::power2::*;
use vstd::prelude::*;
use vstd::string::*;

use crate::flt;
use crate::flt::convert;
use crate::flt::order;
use crate::flt::{Flt, TWO52, TWO53};
use crate::text;

verus! {

/// The FNV-1a hash of a sequence of bytes.
pub open spec fn fnv(bytes: Seq<u8>) -> u64
    decreases bytes.len(),
{
    if bytes.len() == 0 {
        0xcbf29ce484222325
    } else {
        (fnv(bytes.drop_last()) ^ (bytes.last() as u64)).wrapping_mul(0x100000001b3)
    }
}

/// The FNV-1a hash of the bytes of a text.
pub fn fnv1a64(s: &str) -> (r: u64)
    ensures
        r == fnv(s.spec_bytes()),
{
    let bytes: &[u8] = s.as_bytes();
    let mut h: u64 = 0xcbf29ce484222325;
    let mut i: usize = 0;
    assert(bytes@.take(0) =~= Seq::<u8>::empty());
    while i < bytes.len()
        invariant
            i <= bytes@.len(),
            h == fnv(bytes@.take(i as int)),
        decreases bytes@.len() - i,
    {
        proof {
            assert(bytes@.take(i + 1).drop_last() =~= bytes@.take(i as int));
        }
        h = h ^ (bytes[i] as u64);
        h = h.wrapping_mul(0x100000001b3);
        i = i + 1;
    }
    assert(bytes@.take(i as int) =~= bytes@);
    h
}

/// The seed of the child of that number.
pub open spec fn child_seed(parent: Seq<char>, index: nat) -> Seq<char> {
    parent + "::fork:"@ + text::decimal(index)
}

/// The seed of the child with number `fork_index`.
pub fn derive_seed(parent_seed: &str, fork_index: u64) -> (r: String)
    ensures
        r@ == child_seed(parent_seed@, fork_index as nat),
{
    let mut s: String = parent_seed.to_owned();
    s.append("::fork:");
    text::push_decimal(&mut s, fork_index);
    s
}

/// Different children of one parent have different seeds, and none has its
/// parent's.
pub proof fn children_have_seeds_of_their_own(parent: Seq<char>, i: nat, j: nat)
    requires
        i != j,
    ensures
        child_seed(parent, i) != child_seed(parent, j),
        child_seed(parent, i) != parent,
{
    let head = parent + "::fork:"@;
    let a = child_seed(parent, i);
    let b = child_seed(parent, j);
    text::decimals_differ(i, j);
    text::decimal_reads_back(i);
    assert(a.skip(head.len() as int) =~= text::decimal(i));
    assert(b.skip(head.len() as int) =~= text::decimal(j));
}

/// The state after one draw.
pub open spec fn advanced(state: u64) -> u64 {
    state.wrapping_add(0x9e3779b97f4a7c15)
}

/// What is drawn in a state: SplitMix64's finishing steps.
pub open spec fn mixed(state: u64) -> u64 {
    let a = (state ^ (state >> 30)).wrapping_mul(0xbf58476d1ce4e5b9);
    let b = (a ^ (a >> 27)).wrapping_mul(0x94d049bb133111eb);
    b ^ (b >> 31)
}

/// The upper 53 bits of a draw, over 2^53.
pub open spec fn unit(draw: u64) -> Flt {
    convert::of_nat((draw >> 11) as int).over(convert::of_nat(0x20_0000_0000_0000))
}

/// A deterministic generator.
#[derive(Clone, Copy, Debug)]
pub struct DetRng {
    state: u64,
}

impl View for DetRng {
    type V = u64;

    closed spec fn view(&self) -> u64 {
        self.state
    }
}

impl DetRng {
    /// A generator for a textual seed.
    pub fn new(seed: &str) -> (r: Self)
        ensures
            r@ == fnv(seed.spec_bytes()),
    {
        DetRng { state: fnv1a64(seed) }
    }

    /// A generator that starts in a given state.
    pub fn from_u64(seed: u64) -> (r: Self)
        ensures
            r@ == seed,
    {
        DetRng { state: seed }
    }

    /// Draws 64 bits.
    pub fn next_u64(&mut self) -> (r: u64)
        ensures
            final(self)@ == advanced(old(self)@),
            r == mixed(advanced(old(self)@)),
    {
        self.state = self.state.wrapping_add(0x9e3779b97f4a7c15);
        let mut z: u64 = self.state;
        z = (z ^ (z >> 30)).wrapping_mul(0xbf58476d1ce4e5b9);
        z = (z ^ (z >> 27)).wrapping_mul(0x94d049bb133111eb);
        z ^ (z >> 31)
    }

    /// Draws a number from 0 up to, but not including, 1.
    pub fn random(&mut self) -> (r: Flt)
        ensures
            final(self)@ == advanced(old(self)@),
            r == unit(mixed(advanced(old(self)@))),
    {
        let draw: u64 = self.next_u64();
        assert(1u64 << 53 == 0x20_0000_0000_0000) by (bit_vector);
        Flt::from_u64(draw >> 11).quotient(Flt::from_u64(1u64 << 53))
    }

    /// The generator of the child with number `fork_index`; this generator
    /// plays no part in it.
    pub fn fork(&self, seed: &str, fork_index: u64) -> (r: Self)
        ensures
            r@ == fnv(vstd::utf8::encode_utf8(child_seed(seed@, fork_index as nat))),
    {
        let child: String = derive_seed(seed, fork_index);
        Self::new(child.as_str())
    }
}

/// A draw below 1 has an exact value: its upper 53 bits, in units of 2^-53.
/// So it is at least 0 and less than 1.
pub proof fn random_is_below_one(draw: u64)
    ensures
        unit(draw).finite(),
        !unit(draw).neg(),
        unit(draw).val() == (draw >> 11) * pow2(1021),
        Flt::zero().at_most(unit(draw)),
        unit(draw).less(Flt::one()),
{
    let k = (draw >> 11) as int;
    let top = TWO53 as int;
    assert((draw >> 11) < 0x20_0000_0000_0000) by (bit_vector);
    let one = pow2(1074) as int;
    lemma2_to64();
    lemma2_to64_rest();
    lemma_pow2_pos(1074);
    lemma_pow2_pos(1021);
    lemma_pow2_adds(53, 1021);
    lemma_pow2_adds(52, 1022);
    let mk = convert::lemma_representable(k, 1074);
    let mt = convert::lemma_representable(top / 2, 1075);
    let mr = convert::lemma_representable(k, 1021);
    convert::lemma_exact(mk, 1);
    convert::lemma_exact(mt, 1);
    lemma_pow2_unfold(1075);
    assert(top / 2 * pow2(1075) == top * one) by (nonlinear_arith)
        requires
            pow2(1075) == 2 * one,
            top / 2 * 2 == top,
    ;
    assert(convert::of_nat(k) == flt::signed(false, mk));
    assert(convert::of_nat(top) == flt::signed(false, mt));
    let d = top * one;
    let w = k * pow2(1021);
    assert(k * one * one == w * d) by (nonlinear_arith)
        requires
            one == top * pow2(1021),
            w == k * pow2(1021),
            d == top * one,
    ;
    assert(d > 0) by (nonlinear_arith)
        requires
            d == top * one,
            top > 0,
            one > 0,
    ;
    convert::lemma_exact(mr, d);
    if mt == 0 {
        reveal(flt::weight);
    }
    assert(unit(draw) == flt::signed(false, mr));
    order::lemma_zero();
    flt::lemma_weight_step(mr);
    // One weighs 2^1074.
    flt::lemma_weight_split(1022, TWO52 as int);
    assert(1022 * TWO52 + TWO52 == Flt::one().bits);
    assert(w < one) by (nonlinear_arith)
        requires
            w == k * pow2(1021),
            one == top * pow2(1021),
            k < top,
            pow2(1021) > 0,
    ;
    assert(TWO52 * pow2(1022) == one);
}

/// A draw scaled to a number of choices always falls on one of them: the
/// product never rounds up to the number itself.
pub proof fn scaled_draw_stays_below(draw: u64, len: int)
    requires
        0 < len < TWO53,
    ensures
        unit(draw).times(convert::of_nat(len)).whole() < len,
{
    let k = (draw >> 11) as int;
    let top = TWO53 as int;
    let one = pow2(1074) as int;
    let p = pow2(1021) as int;
    random_is_below_one(draw);
    assert((draw >> 11) < 0x20_0000_0000_0000) by (bit_vector);
    lemma2_to64();
    lemma2_to64_rest();
    lemma_pow2_pos(1074);
    lemma_pow2_pos(1021);
    lemma_pow2_adds(53, 1021);
    let ml = convert::lemma_representable(len, 1074);
    convert::lemma_exact(ml, 1);
    assert(convert::of_nat(len) == flt::signed(false, ml));
    let l = len * one;
    let x = k * p;
    let n = x * l;
    assert(n >= 0) by (nonlinear_arith)
        requires
            n == k * p * (len * one),
            k >= 0,
            p > 0,
            len > 0,
            one > 0,
    ;
    order::lemma_nearest_exists(n, one);
    let r = flt::nearest(n, one);
    assert(l > TWO52) by (nonlinear_arith)
        requires
            l == len * one,
            len >= 1,
            one == top * p,
            p > 0,
            top > TWO52,
    ;
    if ml <= TWO52 {
        flt::lemma_weight_split(0, TWO52 as int);
        if ml < TWO52 {
            flt::lemma_weight_lt(ml, TWO52 as int);
        }
    }
    if r >= ml {
        order::lemma_gap(ml);
        if r > ml {
            flt::lemma_weight_lt(ml, r);
            flt::lemma_weight_lt(ml - 1, r - 1);
        }
        let gap = l - flt::weight(ml - 1);
        assert(gap < 2 * p * len) by (nonlinear_arith)
            requires
                gap * TWO52 < l,
                l == len * one,
                one == TWO53 * p,
                TWO53 == 2 * TWO52,
        ;
        let sum = flt::weight(r - 1) + flt::weight(r);
        assert(sum * one > 2 * n) by (nonlinear_arith)
            requires
                sum >= 2 * l - gap,
                gap < 2 * p * len,
                l == len * one,
                one == top * p,
                n == k * p * l,
                k <= top - 1,
                p > 0,
                len > 0,
                one > 0,
        {
            assert(k * p * len <= (top - 1) * p * len);
            assert((top - 1) * p * len == l - p * len);
            assert(2 * n == 2 * (k * p * len) * one);
            assert(sum > 2 * l - 2 * p * len);
            assert(sum > 2 * (k * p * len));
        }
    }
    flt::lemma_weight_lt(r, ml);
    assert(flt::weight(r) / one < len) by (nonlinear_arith)
        requires
            0 <= flt::weight(r) < len * one,
            one > 0,
    ;
}

} // verus!

//! Segments of ordinary size: how many beats pass in them.
use vstd::arithmetic::power2::*;
use vstd::prelude::*;

use crate::flt::near;
use crate::flt::order;
use crate::flt::{Flt, TWO53};
use crate::inverse::area;
use crate::inverse::scale;
use crate::tempo;
use crate::tempo::TempoSegment;

verus! {

/// A segment of ordinary size: a tempo of 1 to 1000, and a slope that is 0 or
/// between 2^-10 and 2^900.
pub open spec fn fits(s: TempoSegment) -> bool {
    let k = s.slope();
    &&& s.t0.finite()
    &&& 0 <= s.t0.val() <= 2048 * scale::unit()
    &&& s.beats0.finite()
    &&& 0 <= s.beats0.val() <= 40000 * scale::unit()
    &&& s.bpm0.finite()
    &&& scale::unit() <= s.bpm0.val() <= 1000 * scale::unit()
    &&& k.finite()
    &&& k.val() == 0 || scale::unit() <= 1024 * near::size(k.val())
    &&& near::size(k.val()) <= pow2(1974)
}

/// The tempo of a segment, `x` after its start, in square units.
pub open spec fn pace(s: TempoSegment, x: int) -> int {
    s.bpm0.val() * scale::unit() + s.slope().val() * x
}

/// `x` after its start a segment has gone on for no more than 1024 seconds, and
/// its tempo is still one of ordinary size.
pub open spec fn lasts(s: TempoSegment, x: int) -> bool {
    &&& 0 <= x <= 1024 * scale::unit()
    &&& 1023 * (scale::unit() * scale::unit()) <= 1024 * pace(s, x)
    &&& pace(s, x) <= 1001 * (scale::unit() * scale::unit())
}

/// `x` after the start of a segment `beats` have passed, up to `c` steps of a
/// sixtieth.
pub open spec fn counts(s: TempoSegment, x: int, beats: int, c: int) -> bool {
    near::off(
        60 * (beats - s.beats0.val()) * (2 * scale::unit() * scale::unit()),
        area::swept(s.bpm0.val(), s.slope().val(), x),
        c * scale::step() * (2 * scale::unit() * scale::unit()),
    )
}

pub proof fn lemma_fits(s: TempoSegment)
    requires
        fits(s),
    ensures
        area::halves(s.slope()),
        near::size(s.slope().val()) <= pow2(2000),
        scale::unit() == 0x1000_0000_0000 * scale::step(),
        scale::step() > 0,
        scale::unit() > 0,
{
    scale::lemma_scale();
    lemma_pow2_strictly_increases(1974, 2000);
    lemma2_to64();
    lemma2_to64_rest();
    lemma_pow2_adds(53, 1021);
    lemma_pow2_strictly_increases(20, 1021);
    let big = pow2(1021) as int;
    assert(1024 * TWO53 <= TWO53 * big) by (nonlinear_arith)
        requires
            big >= 1024,
            TWO53 > 0,
    ;
}

/// Over the rounding of the time since its start, the tempo of a segment hardly
/// changes, however steep it is.
#[verifier::spinoff_prover]
#[verifier::rlimit(80)]
pub proof fn lemma_place_rounds(s: TempoSegment, u: Flt)
    requires
        fits(s),
        u.finite(),
        lasts(s, u.val() - s.t0.val()),
    ensures
        near::off(
            0x1000_0000_0000 * (s.slope().val() * (u.minus(s.t0).val() - (u.val() - s.t0.val()))),
            0,
            2 * (scale::unit() * scale::unit()),
        ),
        near::off(
            1024 * (s.slope().val() * (u.minus(s.t0).val() - (u.val() - s.t0.val()))),
            0,
            scale::unit() * scale::unit(),
        ),
{
    let p = scale::unit();
    let k = s.slope().val();
    let b = s.bpm0.val();
    let x = u.val() - s.t0.val();
    let pp = p * p;
    scale::lemma_scale();
    lemma_fits(s);
    lemma_pow2_strictly_increases(1084, 2000);
    near::lemma_difference_relative(u, s.t0);
    let g = u.minus(s.t0).val() - x;
    let j = near::size(k);
    assert(pp <= b * p <= 1000 * pp) by (nonlinear_arith)
        requires
            p <= b <= 1000 * p,
            p > 0,
            pp == p * p,
    ;
    assert(j * x == near::size(k * x)) by (nonlinear_arith)
        requires
            j == near::size(k),
            x >= 0,
    ;
    assert(j * x <= 1001 * pp);
    lemma_steep_floor(j);
    assert(j * near::size(g) == near::size(k * g)) by (nonlinear_arith)
        requires
            j == near::size(k),
    ;
    let z = near::size(g);
    assert(TWO53 * (j * z) <= j * x + TWO53 * j) by (nonlinear_arith)
        requires
            TWO53 * z <= x + TWO53,
            j >= 0,
    {
        assert(j * (TWO53 * z) <= j * (x + TWO53));
    }
}

/// The steepest slope is nothing against a square unit.
pub proof fn lemma_steep_floor(j: int)
    requires
        0 <= j <= pow2(1974),
    ensures
        TWO53 * (TWO53 * j) <= scale::unit() * scale::unit(),
{
    lemma2_to64();
    lemma2_to64_rest();
    lemma_pow2_adds(53, 1974);
    lemma_pow2_adds(53, 2027);
    lemma_pow2_adds(1074, 1074);
    lemma_pow2_strictly_increases(2080, 2148);
}

/// The beats at a time of a segment are those that have passed by then.
#[verifier::spinoff_prover]
#[verifier::rlimit(80)]
pub proof fn lemma_forward(s: TempoSegment, u: Flt)
    requires
        fits(s),
        u.finite(),
        lasts(s, u.val() - s.t0.val()),
    ensures
        s.beats_at(u).finite(),
        s.beats0.val() <= s.beats_at(u).val(),
        counts(s, u.val() - s.t0.val(), s.beats_at(u).val(), 15000),
{
    let p = scale::unit();
    let e = scale::step();
    let k = s.slope();
    let x = u.val() - s.t0.val();
    let b = s.bpm0.val();
    let kv = k.val();
    scale::lemma_scale();
    lemma_fits(s);
    order::lemma_zero();
    near::lemma_difference_near(u, s.t0, 1084);
    let dt = u.minus(s.t0);
    let d = dt.val();
    assert(dt.larger(Flt::zero()) == dt);
    let pp = p * p;
    lemma_place_rounds(s, u);
    assert(kv * d == kv * x + kv * (d - x)) by (nonlinear_arith);
    assert(b * p <= 1000 * pp && pp <= b * p) by (nonlinear_arith)
        requires
            p <= b <= 1000 * p,
            p > 0,
            pp == p * p,
    ;
    assert(1024 * p * p == 1024 * pp) by (nonlinear_arith)
        requires
            pp == p * p,
    ;
    area::lemma_area(s.bpm0, k, dt);
    let q = tempo::area(s.bpm0, k, dt);
    area::lemma_area_grows(s.bpm0, k, dt);
    order::sum_never_shrinks(s.beats0, q);
    assert(q.val() <= 0x6000 * p) by {
        let a = area::swept(b, kv, d);
        let v = 2 * b * p + kv * d;
        assert(v <= 2002 * pp) by (nonlinear_arith)
            requires
                v == 2 * b * p + kv * d,
                b * p <= 1000 * pp,
                kv * d <= pp + (1001 * pp - b * p),
        ;
        assert(q.val() <= 0x6000 * p) by (nonlinear_arith)
            requires
                60 * q.val() * (2 * p * p) <= a + 8960 * e * (2 * p * p),
                a == d * v,
                v <= 2002 * pp,
                0 <= d <= 1024 * p,
                pp == p * p,
                p == 0x1000_0000_0000 * e,
                e > 0,
        {
            assert(d * v <= d * (2002 * pp));
            assert(d * (2002 * pp) <= (1024 * p) * (2002 * pp));
            assert(8960 * e <= p);
            assert(8960 * e * (2 * p * p) <= p * (2 * pp));
            assert(pp > 0);
            assert(120 * q.val() * pp <= (2050050 * p) * pp);
        }
    }
    near::lemma_sum_near(s.beats0, q, 1090);
    let beats = s.beats0.plus(q).val();
    area::lemma_swept_apart(b, kv, x, d, p);
    let v = (b * p + kv * x) + (b * p + kv * d);
    let sx = area::swept(b, kv, x);
    let sd = area::swept(b, kv, d);
    let ep = e * pp;
    assert(near::off(sd, sx, 4004 * ep)) by (nonlinear_arith)
        requires
            sd - sx == (d - x) * v,
            near::off(d, x, e),
            near::off(v, 0, 4004 * pp),
            ep == e * pp,
            e > 0,
    ;
    assert(near::off(60 * q.val() * (2 * p * p), sd, 17920 * ep)) by (nonlinear_arith)
        requires
            near::off(60 * q.val() * (2 * p * p), sd, 8960 * e * (2 * p * p)),
            ep == e * pp,
            pp == p * p,
    ;
    assert(near::off(
        60 * (beats - s.beats0.val()) * (2 * p * p),
        60 * q.val() * (2 * p * p),
        7680 * ep,
    )) by (nonlinear_arith)
        requires
            near::off(beats, s.beats0.val() + q.val(), 64 * e),
            ep == e * pp,
            pp == p * p,
            p > 0,
    {
        let g = beats - s.beats0.val() - q.val();
        assert(near::off(g, 0, 64 * e));
        assert(60 * (beats - s.beats0.val()) * (2 * p * p) - 60 * q.val() * (2 * p * p) == 120 * (g
            * pp));
        assert(pp > 0);
        assert(near::off(g * pp, 0, 64 * ep));
    }
    assert(15000 * e * (2 * p * p) == 30000 * ep) by (nonlinear_arith)
        requires
            ep == e * pp,
            pp == p * p,
    ;
}

/// How much area lies under a tempo of ordinary size.
pub proof fn lemma_swept_range(s: TempoSegment, x: int)
    requires
        fits(s),
        lasts(s, x),
    ensures
        1023 * (x * (2 * scale::unit() * scale::unit())) <= 1024 * area::swept(s.bpm0.val(), s.slope().val(), x),
        area::swept(s.bpm0.val(), s.slope().val(), x) <= 2001 * (x * (scale::unit() * scale::unit())),
        0 <= area::swept(s.bpm0.val(), s.slope().val(), x),
{
    let p = scale::unit();
    let b = s.bpm0.val();
    let k = s.slope().val();
    let pp = p * p;
    let v = b * p + (b * p + k * x);
    lemma_fits(s);
    assert(pp <= b * p <= 1000 * pp) by (nonlinear_arith)
        requires
            p <= b <= 1000 * p,
            p > 0,
            pp == p * p,
    ;
    let a = area::swept(b, k, x);
    assert(a == x * v) by (nonlinear_arith)
        requires
            a == x * (2 * b * p + k * x),
            v == b * p + (b * p + k * x),
    ;
    assert(1023 * (x * (2 * p * p)) <= 1024 * a && a <= 2001 * (x * pp) && 0 <= a)
        by (nonlinear_arith)
        requires
            a == x * v,
            x >= 0,
            pp == p * p,
            pp >= 0,
            2046 * pp <= 1024 * v,
            v <= 2001 * pp,
    {
        assert(x * (2046 * pp) <= x * (1024 * v));
        assert(x * v <= x * (2001 * pp));
        assert(x * (2046 * pp) == 1023 * (x * (2 * p * p)));
        assert(x * v >= 0);
    }
}

/// The beats since the start of a segment, as it is worked out when a time is
/// looked for.
#[verifier::spinoff_prover]
#[verifier::rlimit(80)]
pub proof fn lemma_since_start(s: TempoSegment, x: int, beats: Flt, c: int)
    requires
        fits(s),
        lasts(s, x),
        beats.finite(),
        0 <= c <= 40000,
        counts(s, x, beats.val(), c),
    ensures
        ({
            let delta = beats.minus(s.beats0);
            let sixtieths = delta.times(Flt::sixty());
            &&& delta.finite()
            &&& sixtieths.finite()
            &&& delta.val() >= 0 ==> sixtieths.val() >= 0
            &&& near::off(60 * delta.val(), 60 * (beats.val() - s.beats0.val()), 3840 * scale::step())
            &&& near::off(sixtieths.val(), 60 * (beats.val() - s.beats0.val()), 5888 * scale::step())
            &&& near::off(60 * (beats.val() - s.beats0.val()), 0, 0x10_0000 * scale::unit())
        }),
{
    let p = scale::unit();
    let e = scale::step();
    let pp = p * p;
    let n = beats.val() - s.beats0.val();
    let a = area::swept(s.bpm0.val(), s.slope().val(), x);
    scale::lemma_scale();
    lemma_fits(s);
    lemma_swept_range(s, x);
    order::lemma_sixty();
    assert(near::off(60 * n, 0, 0x10_0000 * p)) by (nonlinear_arith)
        requires
            near::off(60 * n * (2 * p * p), a, c * e * (2 * p * p)),
            0 <= a <= 2001 * (x * pp),
            0 <= x <= 1024 * p,
            0 <= c <= 40000,
            p == 0x1000_0000_0000 * e,
            e > 0,
            p > 0,
            pp == p * p,
    {
        assert(x * pp <= (1024 * p) * pp);
        assert(c * e <= p);
        assert(c * e * (2 * p * p) <= p * (2 * p * p));
        assert(60 * n * (2 * pp) <= 2001 * ((1024 * p) * pp) + p * (2 * pp));
        assert(60 * n * (2 * pp) <= (0x10_0000 * p) * (2 * pp));
        assert((-(0x10_0000 * p)) * (2 * pp) <= 60 * n * (2 * pp));
        assert(pp > 0);
    }
    near::lemma_difference_near(beats, s.beats0, 1090);
    let delta = beats.minus(s.beats0);
    let d = delta.val();
    let sx = Flt::sixty().val();
    assert(near::off(d * sx, 0, 0x20_0000 * p * p)) by (nonlinear_arith)
        requires
            near::off(d, n, 64 * e),
            near::off(60 * n, 0, 0x10_0000 * p),
            sx == 60 * p,
            p == 0x1000_0000_0000 * e,
            e > 0,
    {
        assert(near::off(60 * d, 0, 0x20_0000 * p));
        assert(d * sx == (60 * d) * p);
    }
    near::lemma_product_near(delta, Flt::sixty(), 1095);
    let r = delta.times(Flt::sixty()).val();
    assert(near::off(r, 60 * d, 2048 * e)) by (nonlinear_arith)
        requires
            near::off(r * p, d * sx, 2048 * e * p),
            sx == 60 * p,
            p > 0,
    ;
    if d >= 0 {
        assert(d * sx >= 0) by (nonlinear_arith)
            requires
                d >= 0,
                sx >= 0,
        ;
    }
}

/// Where no beats have passed, no time has.
pub proof fn lemma_no_beats(s: TempoSegment, x: int, n: int, c: int)
    requires
        fits(s),
        lasts(s, x),
        0 <= c <= 60000,
        near::off(
            n * (2 * scale::unit() * scale::unit()),
            area::swept(s.bpm0.val(), s.slope().val(), x),
            c * scale::step() * (2 * scale::unit() * scale::unit()),
        ),
    ensures
        1023 * x <= 1024 * (n + c * scale::step()),
{
    let p = scale::unit();
    let e = scale::step();
    let pp = 2 * p * p;
    lemma_fits(s);
    lemma_swept_range(s, x);
    assert(1023 * x <= 1024 * (n + c * e)) by (nonlinear_arith)
        requires
            1023 * (x * pp) <= 1024 * (n * pp + c * e * pp),
            pp == 2 * p * p,
            p > 0,
    {
        assert(pp > 0);
        assert((1023 * x) * pp <= (1024 * (n + c * e)) * pp);
    }
}

/// A segment that lasts to some time has lasted to every earlier one.
pub proof fn lemma_lasts_before(s: TempoSegment, x: int, y: int)
    requires
        fits(s),
        lasts(s, y),
        0 <= x <= y,
    ensures
        lasts(s, x),
{
    let p = scale::unit();
    let k = s.slope().val();
    let b = s.bpm0.val();
    let pp = p * p;
    lemma_fits(s);
    assert(pp <= b * p <= 1000 * pp) by (nonlinear_arith)
        requires
            p <= b <= 1000 * p,
            p > 0,
            pp == p * p,
    ;
    if k >= 0 {
        assert(0 <= k * x <= k * y) by (nonlinear_arith)
            requires
                k >= 0,
                0 <= x <= y,
        ;
    } else {
        assert(k * y <= k * x <= 0) by (nonlinear_arith)
            requires
                k < 0,
                0 <= x <= y,
        ;
    }
}

/// A segment that goes on at one tempo does so for as long as it is looked at.
pub proof fn lemma_steady_lasts(s: TempoSegment, x: int)
    requires
        fits(s),
        s.slope().val() == 0,
        0 <= x <= 1024 * scale::unit(),
    ensures
        lasts(s, x),
{
    let p = scale::unit();
    let b = s.bpm0.val();
    lemma_fits(s);
    assert(p * p <= b * p <= 1000 * (p * p)) by (nonlinear_arith)
        requires
            p <= b <= 1000 * p,
            p > 0,
    ;
    assert(0 * x == 0);
}

/// The last segment has no slope.
pub proof fn lemma_endless(s: TempoSegment)
    requires
        s.t1 == Flt::infinity(),
        s.t0.finite(),
    ensures
        s.slope() == Flt::zero(),
        s.slope().val() == 0,
{
    order::lemma_zero();
    assert(!s.t1.minus(s.t0).finite());
}

/// `counts` without the square units: how many sixtieths of a beat have passed.
pub proof fn lemma_counts_more(s: TempoSegment, x: int, a: int, b: int, c: int, d: int)
    requires
        fits(s),
        counts(s, x, a, c),
        near::off(60 * b, 60 * a, d * scale::step()),
    ensures
        counts(s, x, b, c + d),
{
    let p = scale::unit();
    let e = scale::step();
    let q = 2 * p * p;
    lemma_fits(s);
    assert(near::off(60 * (b - s.beats0.val()) * q, 60 * (a - s.beats0.val()) * q, d * e * q))
        by (nonlinear_arith)
        requires
            near::off(60 * b, 60 * a, d * e),
            q == 2 * p * p,
            p > 0,
    {
        assert(q > 0);
        let g = 60 * b - 60 * a;
        assert(60 * (b - s.beats0.val()) * q - 60 * (a - s.beats0.val()) * q == g * q);
        assert(near::off(g * q, 0, d * e * q));
    }
    assert((c + d) * e * q == c * e * q + d * e * q) by (nonlinear_arith);
}

} // verus!

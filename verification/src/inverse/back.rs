//! How well a segment finds the time of a beat.
use vstd::arithmetic::power2::*;
use vstd::prelude::*;

use crate::flt;
use crate::flt::near;
use crate::flt::order;
use crate::flt::{Flt, TWO52, TWO53};
use crate::inverse::area;
use crate::inverse::scale;
use crate::inverse::segment;
use crate::tempo;
use crate::tempo::TempoSegment;

verus! {

/// At a steady tempo the time of a beat is the time at which it has passed.
#[verifier::spinoff_prover]
#[verifier::rlimit(80)]
proof fn lemma_back_steady(s: TempoSegment, x: int, beats: Flt, c: int)
    requires
        segment::fits(s),
        s.slope().val() == 0,
        segment::lasts(s, x),
        beats.finite(),
        0 <= c <= 40000,
        segment::counts(s, x, beats.val(), c),
    ensures
        s.time_at(beats).finite(),
        near::off(s.time_at(beats).val(), s.t0.val() + x, 50000 * scale::step()),
{
    let p = scale::unit();
    let e = scale::step();
    let n = 60 * (beats.val() - s.beats0.val());
    scale::lemma_scale();
    segment::lemma_fits(s);
    order::lemma_zero();
    order::lemma_tiny();
    segment::lemma_since_start(s, x, beats, c);
    let delta = beats.minus(s.beats0);
    let sixtieths = delta.times(Flt::sixty());
    let k = s.slope();
    segment::lemma_no_beats(s, x, n, c);
    assert(c * e <= 40000 * e) by (nonlinear_arith)
        requires
            c <= 40000,
            e > 0,
    ;
    if !delta.at_most(Flt::zero()) {
        flt::lemma_weight_step(k.mag());
        assert(k.mag() == 0) by {
            if k.mag() > 0 {
                flt::lemma_weight_lt(0, k.mag());
            }
        }
        assert(flt::signed(false, 0) == Flt::zero());
        let b = s.bpm0.val();
        let cv = sixtieths.val();
        assert(tempo::positive(s.bpm0) == s.bpm0);
        assert(area::swept(b, 0, x) == 2 * p * (x * b)) by (nonlinear_arith)
            requires
                area::swept(b, 0, x) == x * (2 * b * p + 0 * x),
        ;
        assert(near::off(cv * p, x * b, 46000 * e * b)) by (nonlinear_arith)
            requires
                near::off(n * (2 * p * p), 2 * p * (x * b), c * e * (2 * p * p)),
                near::off(cv, n, 5888 * e),
                c <= 40000,
                e > 0,
                p > 0,
                p <= b,
        {
            assert(near::off(n * p, x * b, c * e * p));
            assert(near::off(cv * p, n * p, 5888 * e * p));
            assert(c * e * p <= 40000 * e * p);
            assert(near::off(cv * p, x * b, 46000 * e * p));
            assert(46000 * e * p <= 46000 * e * b);
        }
        assert(near::size(cv) * p <= pow2(1085) * near::size(b)) by (nonlinear_arith)
            requires
                near::off(cv * p, x * b, 46000 * e * b),
                0 <= x <= 1024 * p,
                p == 0x1000_0000_0000 * e,
                e > 0,
                cv >= 0,
                b > 0,
                pow2(1085) == 2048 * p,
        {
            assert(x * b <= (1024 * p) * b);
            assert(46000 * e * b <= p * b);
        }
        near::lemma_quotient_near(sixtieths, s.bpm0, 1085);
        let r = sixtieths.over(s.bpm0);
        let rv = r.val();
        assert(near::off(rv, x, 46002 * e)) by (nonlinear_arith)
            requires
                near::off(rv * b, cv * p, 2 * e * b),
                near::off(cv * p, x * b, 46000 * e * b),
                b > 0,
        {
            assert(near::off(rv * b, x * b, 46002 * e * b));
            assert(rv * b <= (x + 46002 * e) * b);
            assert((x - 46002 * e) * b <= rv * b);
        }
        near::lemma_sum_near(s.t0, r, 1086);
    }
}

/// The square of the tempo follows from the area: it is what it was at the
/// start, and twice the slope times the area.
#[verifier::spinoff_prover]
#[verifier::rlimit(80)]
proof fn lemma_turn(p: int, e: int, b: int, k: int, x: int, cv: int)
    requires
        p == scale::unit(),
        e > 0,
        p > 0,
        near::off(cv * (2 * p * p), area::swept(b, k, x), 46000 * e * (2 * p * p)),
    ensures
        near::off(
            2 * k * cv * (p * p),
            (b * p + k * x) * (b * p + k * x) - b * b * (p * p),
            92000 * (e * near::size(k)) * (p * p),
        ),
{
    let pp = p * p;
    let a = area::swept(b, k, x);
    let v = b * p + k * x;
    let bp = b * p;
    let kx = k * x;
    assert(bp * bp == b * b * pp) by (nonlinear_arith)
        requires
            bp == b * p,
            pp == p * p,
    ;
    assert(2 * b * p == 2 * bp) by (nonlinear_arith)
        requires
            bp == b * p,
    ;
    assert(k * a == kx * (2 * bp + kx)) by (nonlinear_arith)
        requires
            a == x * (2 * bp + kx),
            kx == k * x,
    ;
    assert(kx * (2 * bp + kx) == v * v - bp * bp) by (nonlinear_arith)
        requires
            v == bp + kx,
    ;
    let g = cv * (2 * pp) - a;
    let h = 92000 * (e * pp);
    assert(near::off(g, 0, h)) by (nonlinear_arith)
        requires
            near::off(cv * (2 * p * p), a, 46000 * e * (2 * p * p)),
            g == cv * (2 * pp) - a,
            pp == p * p,
            h == 92000 * (e * pp),
    ;
    assert(near::off(k * g, 0, near::size(k) * h)) by (nonlinear_arith)
        requires
            near::off(g, 0, h),
    ;
    assert(k * g == 2 * k * cv * pp - k * a) by (nonlinear_arith)
        requires
            g == cv * (2 * pp) - a,
    ;
    assert(near::size(k) * h == 92000 * (e * near::size(k)) * pp) by (nonlinear_arith)
        requires
            h == 92000 * (e * pp),
    ;
}

/// The tempo that is found is the one there is.
#[verifier::spinoff_prover]
#[verifier::rlimit(80)]
proof fn lemma_tempo_found(p: int, e: int, j: int, v: int, x: int, r: int)
    requires
        p == 0x1000_0000_0000 * e,
        e > 0,
        0 <= j <= 0x10_0000 * p,
        1023 * (p * p) <= 1024 * v,
        r >= 0,
        near::off(x * (p * p), v * v, (3072 * (e * p) + 92000 * (e * j)) * (p * p)),
        x <= (r + e) * (r + e),
        r >= e ==> (r - e) * (r - e) <= x,
    ensures
        near::off(p * r, v, 3080 * (e * p) + 92200 * (e * j)),
{
    let pp = p * p;
    let y = p * r;
    let t = 3072 * (e * p) + 92000 * (e * j);
    let d = 3079 * (e * p) + 92200 * (e * j);
    assert(e * j >= 0) by (nonlinear_arith)
        requires
            e > 0,
            j >= 0,
    ;
    assert(e * p > 0) by (nonlinear_arith)
        requires
            e > 0,
            p > 0,
    ;
    assert(e * j <= 0x10_0000 * (e * p)) by (nonlinear_arith)
        requires
            e > 0,
            j <= 0x10_0000 * p,
    ;
    assert(pp == 0x1000_0000_0000 * (e * p)) by (nonlinear_arith)
        requires
            pp == p * p,
            p == 0x1000_0000_0000 * e,
    ;
    assert(0 < d <= v);
    assert(1024 * t <= 1023 * d);
    if y > v + d + e * p {
        assert(r >= e) by (nonlinear_arith)
            requires
                p * r > e * p,
                p > 0,
        ;
        assert(false) by (nonlinear_arith)
            requires
                (r - e) * (r - e) <= x,
                x * pp <= v * v + t * pp,
                pp == p * p,
                y == p * r,
                y > v + d + e * p,
                1023 * pp <= 1024 * v,
                1024 * t <= 1023 * d,
                d > 0,
                v > 0,
                pp > 0,
                p > 0,
        {
            let z = y - e * p;
            assert(z * z == ((r - e) * (r - e)) * pp);
            assert(z * z <= x * pp);
            assert(z > v + d);
            assert(z * z > (v + d) * (v + d));
            assert((v + d) * (v + d) >= v * v + 2 * (v * d));
            assert(1024 * (v * d) >= 1023 * pp * d);
            assert(1023 * pp * d >= 1024 * t * pp);
        }
    }
    if y < v - d - e * p {
        assert(false) by (nonlinear_arith)
            requires
                x <= (r + e) * (r + e),
                v * v - t * pp <= x * pp,
                pp == p * p,
                y == p * r,
                y >= 0,
                e * p > 0,
                y < v - d - e * p,
                1023 * pp <= 1024 * v,
                1024 * t <= 1023 * d,
                0 < d <= v,
                pp > 0,
                p > 0,
        {
            let z = y + e * p;
            assert(z * z == ((r + e) * (r + e)) * pp);
            assert(x * pp <= z * z);
            assert(0 <= z < v - d);
            assert(z * z < (v - d) * (v - d));
            assert((v - d) * (v - d) == v * v - 2 * (v * d) + d * d);
            assert(d * d <= v * d);
            assert(1024 * (v * d) >= 1023 * pp * d);
            assert(1023 * pp * d >= 1024 * t * pp);
        }
    }
}

/// A slope of ordinary size is one that counts.
pub proof fn lemma_counts_as_slope(k: Flt)
    requires
        k.finite(),
        scale::unit() <= 1024 * near::size(k.val()),
    ensures
        !flt::signed(false, k.mag()).less(Flt::tiny()),
{
    lemma2_to64();
    lemma2_to64_rest();
    let q = TWO52 + 0x1_9799_812d_ea11;
    flt::lemma_weight_split(982, q);
    assert(982 * TWO52 + q == Flt::tiny().bits);
    lemma_pow2_adds(53, 982);
    lemma_pow2_adds(10, 1064);
    lemma_pow2_strictly_increases(1035, 1064);
    lemma_pow2_pos(982);
    assert(q * pow2(982) <= pow2(53) * pow2(982)) by (nonlinear_arith)
        requires
            q <= pow2(53),
            pow2(982) > 0,
    ;
    flt::lemma_weight_step(k.mag());
}

/// The square of the tempo at the end, as it is worked out.
#[verifier::spinoff_prover]
#[verifier::rlimit(80)]
proof fn lemma_square_found(s: TempoSegment, x: int, c: Flt)
    requires
        segment::fits(s),
        near::size(s.slope().val()) <= 0x10_0000 * scale::unit(),
        segment::lasts(s, x),
        c.finite(),
        near::off(
            c.val() * (2 * scale::unit() * scale::unit()),
            area::swept(s.bpm0.val(), s.slope().val(), x),
            46000 * scale::step() * (2 * scale::unit() * scale::unit()),
        ),
    ensures
        ({
            let k = s.slope();
            let disc = s.bpm0.times(s.bpm0).plus(Flt::two().times(k).times(c)).larger(Flt::zero());
            let j = near::size(k.val());
            let pp = scale::unit() * scale::unit();
            &&& disc.finite()
            &&& 0 <= disc.val() <= 0x10_0000 * scale::unit()
            &&& near::off(
                disc.val() * scale::unit() * pp,
                segment::pace(s, x) * segment::pace(s, x),
                (3072 * (scale::step() * scale::unit()) + 92000 * (scale::step() * j)) * pp,
            )
        }),
{
    let p = scale::unit();
    let e = scale::step();
    let pp = p * p;
    let k = s.slope();
    let kv = k.val();
    let j = near::size(kv);
    let b = s.bpm0.val();
    let cv = c.val();
    let v = segment::pace(s, x);
    scale::lemma_scale();
    segment::lemma_fits(s);
    area::lemma_halves(k);
    lemma_turn(p, e, b, kv, x, cv);
    let bb = b * b;
    let kc = 2 * kv * cv;
    let ej = e * j;
    assert(pp == 0x1000_0000_0000 * (e * p)) by (nonlinear_arith)
        requires
            pp == p * p,
            p == 0x1000_0000_0000 * e,
    ;
    assert(0 <= ej <= 0x10_0000 * (e * p)) by (nonlinear_arith)
        requires
            0 <= j <= 0x10_0000 * p,
            e > 0,
            ej == e * j,
    ;
    assert(pp > 0 && pp <= bb <= 1000000 * pp) by (nonlinear_arith)
        requires
            p <= b <= 1000 * p,
            p > 0,
            pp == p * p,
            bb == b * b,
    ;
    let vv = v * v;
    let p4 = pp * pp;
    assert(0 <= vv <= 1002001 * p4) by (nonlinear_arith)
        requires
            1023 * pp <= 1024 * v,
            v <= 1001 * pp,
            pp > 0,
            vv == v * v,
            p4 == pp * pp,
    {
        assert(v >= 0);
        assert(v * v <= (1001 * pp) * (1001 * pp));
    }
    let sum = bb + kc;
    assert(near::off(sum * pp, vv, 92000 * ej * pp)) by (nonlinear_arith)
        requires
            near::off(kc * pp, vv - bb * pp, 92000 * ej * pp),
            sum == bb + kc,
    ;
    assert(-(6 * pp) <= sum <= 1002007 * pp) by (nonlinear_arith)
        requires
            near::off(sum * pp, vv, 92000 * ej * pp),
            0 <= vv <= 1002001 * p4,
            p4 == pp * pp,
            0 <= 92000 * ej <= 6 * pp,
            pp > 0,
    {
        assert(92000 * ej * pp <= 6 * pp * pp);
        assert(sum * pp <= (1002007 * pp) * pp);
        assert((-(6 * pp)) * pp <= sum * pp);
    }
    assert((0x10_0000 * p) * p == 0x10_0000 * pp) by (nonlinear_arith)
        requires
            pp == p * p,
    ;
    assert(0x10_0000 * p * p == 0x10_0000 * pp) by (nonlinear_arith)
        requires
            pp == p * p,
    ;
    near::lemma_product_near(s.bpm0, s.bpm0, 1094);
    let s1 = s.bpm0.times(s.bpm0);
    let k2 = Flt::two().times(k);
    near::lemma_product_near(k2, c, 1094);
    let s2 = k2.times(c);
    let v1 = s1.val();
    let v2 = s2.val();
    let ep = e * p;
    assert(near::off((v1 + v2) * p, sum, 2048 * ep)) by (nonlinear_arith)
        requires
            near::off(v1 * p, bb, 1024 * e * p),
            near::off(v2 * p, kc, 1024 * e * p),
            sum == bb + kc,
            ep == e * p,
    ;
    assert(near::off(v1 + v2, 0, 0x10_0000 * p)) by (nonlinear_arith)
        requires
            near::off((v1 + v2) * p, sum, 2048 * ep),
            -(6 * pp) <= sum <= 1002007 * pp,
            pp == 0x1000_0000_0000 * ep,
            pp == p * p,
            p > 0,
    {
        assert((v1 + v2) * p <= (0x10_0000 * p) * p);
        assert(-((0x10_0000 * p) * p) <= (v1 + v2) * p);
    }
    near::lemma_sum_near(s1, s2, 1094);
    let d = s1.plus(s2).val();
    assert(near::off(d * p, sum, 3072 * ep)) by (nonlinear_arith)
        requires
            near::off((v1 + v2) * p, sum, 2048 * ep),
            near::off(d, v1 + v2, 1024 * e),
            ep == e * p,
            p > 0,
    {
        assert(near::off(d * p, (v1 + v2) * p, 1024 * e * p));
    }
    assert(near::off(d * p * pp, vv, (3072 * ep + 92000 * ej) * pp)) by (nonlinear_arith)
        requires
            near::off(d * p, sum, 3072 * ep),
            near::off(sum * pp, vv, 92000 * ej * pp),
            pp > 0,
    {
        assert(near::off(d * p * pp, sum * pp, 3072 * ep * pp));
    }
    order::lemma_zero();
    if d < 0 {
        assert(d * p * pp <= 0 && 0 * p * pp == 0) by (nonlinear_arith)
            requires
                d < 0,
                p > 0,
                pp > 0,
        ;
    }
}

/// On a steep ramp the tempo that is found is the one there is, up to what
/// matters little over so short a time.
#[verifier::spinoff_prover]
#[verifier::rlimit(80)]
proof fn lemma_steep_tempo_found(p: int, e: int, j: int, v: int, x: int, r: int, u: int)
    requires
        p == 0x1000_0000_0000 * e,
        e > 0,
        0x10_0000 * p <= j,
        0 <= v,
        r >= 0,
        near::off(x * (p * p), v * v, 92010 * (e * j) * (p * p)),
        u >= 0,
        p * u <= e * j,
        x <= (r + u) * (r + u),
        r >= u ==> (r - u) * (r - u) <= x,
    ensures
        near::off(p * r, v, 3200001 * (e * j)),
{
    let pp = p * p;
    let y = p * r;
    let ej = e * j;
    let ep = e * p;
    let pu = p * u;
    let t = 92010 * ej;
    let d = 3200000 * ej;
    assert(ep > 0) by (nonlinear_arith)
        requires
            e > 0,
            p > 0,
            ep == e * p,
    ;
    assert(0x10_0000 * ep <= ej) by (nonlinear_arith)
        requires
            0x10_0000 * p <= j,
            e > 0,
            ep == e * p,
            ej == e * j,
    ;
    assert(pp == 0x1000_0000_0000 * ep) by (nonlinear_arith)
        requires
            pp == p * p,
            p == 0x1000_0000_0000 * e,
            ep == e * p,
    ;
    assert(t * pp <= d * d) by (nonlinear_arith)
        requires
            t == 92010 * ej,
            d == 3200000 * ej,
            0x10_0000 * ep <= ej,
            pp == 0x1000_0000_0000 * ep,
            ep > 0,
    {
        assert(pp <= 0x100_0000 * ej);
        assert(t * pp <= (92010 * ej) * (0x100_0000 * ej));
        assert((92010 * ej) * (0x100_0000 * ej) == (92010 * 0x100_0000) * (ej * ej));
        assert(d * d == (3200000 * 3200000) * (ej * ej));
    }
    assert(d > 0);
    assert(pu >= 0) by (nonlinear_arith)
        requires
            pu == p * u,
            p > 0,
            u >= 0,
    ;
    if y > v + d + pu {
        assert(r >= u) by (nonlinear_arith)
            requires
                p * r > p * u,
                p > 0,
        ;
        assert(false) by (nonlinear_arith)
            requires
                (r - u) * (r - u) <= x,
                x * pp <= v * v + t * pp,
                t * pp <= d * d,
                pp == p * p,
                y == p * r,
                pu == p * u,
                y > v + d + pu,
                d > 0,
                v >= 0,
                p > 0,
        {
            let z = y - pu;
            assert(z * z == ((r - u) * (r - u)) * pp);
            assert(z * z <= x * pp);
            assert(z > v + d);
            assert(z * z > (v + d) * (v + d));
            assert((v + d) * (v + d) >= v * v + d * d);
        }
    }
    if y < v - d - pu {
        assert(false) by (nonlinear_arith)
            requires
                x <= (r + u) * (r + u),
                v * v - t * pp <= x * pp,
                t * pp <= d * d,
                pp == p * p,
                y == p * r,
                pu == p * u,
                pu >= 0,
                y >= 0,
                y < v - d - pu,
                d > 0,
                p > 0,
        {
            let z = y + pu;
            assert(z * z == ((r + u) * (r + u)) * pp);
            assert(x * pp <= z * z);
            assert(0 <= z < v - d);
            assert(z * z < (v - d) * (v - d));
            assert(d <= v);
            assert((v - d) * (v - d) == v * v - 2 * (v * d) + d * d);
            assert(d * d <= v * d);
        }
    }
}

/// The square of the tempo at the end of a steep ramp, as it is worked out.
#[verifier::spinoff_prover]
#[verifier::rlimit(80)]
proof fn lemma_steep_square_found(s: TempoSegment, x: int, c: Flt)
    requires
        segment::fits(s),
        0x10_0000 * scale::unit() <= near::size(s.slope().val()),
        segment::lasts(s, x),
        c.finite(),
        near::off(
            c.val() * (2 * scale::unit() * scale::unit()),
            area::swept(s.bpm0.val(), s.slope().val(), x),
            46000 * scale::step() * (2 * scale::unit() * scale::unit()),
        ),
    ensures
        ({
            let k = s.slope();
            let disc = s.bpm0.times(s.bpm0).plus(Flt::two().times(k).times(c)).larger(Flt::zero());
            let ej = scale::step() * near::size(k.val());
            let pp = scale::unit() * scale::unit();
            &&& disc.finite()
            &&& 0 <= disc.val()
            &&& disc.val() * scale::unit() <= 0x1000_0000_0000 * ej
            &&& near::off(
                disc.val() * scale::unit() * pp,
                segment::pace(s, x) * segment::pace(s, x),
                92010 * ej * pp,
            )
        }),
{
    let p = scale::unit();
    let e = scale::step();
    let pp = p * p;
    let k = s.slope();
    let kv = k.val();
    let j = near::size(kv);
    let b = s.bpm0.val();
    let cv = c.val();
    let v = segment::pace(s, x);
    scale::lemma_scale();
    segment::lemma_fits(s);
    area::lemma_halves(k);
    lemma_turn(p, e, b, kv, x, cv);
    let bb = b * b;
    let kc = 2 * kv * cv;
    let ej = e * j;
    let ep = e * p;
    lemma_steep_sizes(j);
    let vv = v * v;
    assert(pp <= bb <= 1000000 * pp) by (nonlinear_arith)
        requires
            p <= b <= 1000 * p,
            p > 0,
            pp == p * p,
            bb == b * b,
    ;
    assert(0 <= vv <= (1002001 * pp) * pp) by (nonlinear_arith)
        requires
            1023 * pp <= 1024 * v,
            v <= 1001 * pp,
            pp > 0,
            vv == v * v,
    {
        assert(v >= 0);
        assert(v * v <= (1001 * pp) * (1001 * pp));
    }
    let sum = bb + kc;
    assert(near::off(sum * pp, vv, 92000 * ej * pp)) by (nonlinear_arith)
        requires
            near::off(kc * pp, vv - bb * pp, 92000 * ej * pp),
            sum == bb + kc,
    ;
    assert(-(92000 * ej) <= sum <= 1002001 * pp + 92000 * ej) by (nonlinear_arith)
        requires
            near::off(sum * pp, vv, 92000 * ej * pp),
            0 <= vv <= (1002001 * pp) * pp,
            pp > 0,
    {
        assert(sum * pp <= (1002001 * pp + 92000 * ej) * pp);
        assert((-(92000 * ej)) * pp <= sum * pp);
    }
    assert(near::off(kc, 0, 0x2000_0000_0000 * ej));
    assert((0x10_0000 * p) * p == 0x10_0000 * pp) by (nonlinear_arith)
        requires
            pp == p * p,
    ;
    assert(0x10_0000 * p * p == 0x10_0000 * pp) by (nonlinear_arith)
        requires
            pp == p * p,
    ;
    near::lemma_product_near(s.bpm0, s.bpm0, 1094);
    let s1 = s.bpm0.times(s.bpm0);
    let k2 = Flt::two().times(k);
    assert(k2.val() * cv == kc);
    near::lemma_product_relative(k2, c);
    let s2 = k2.times(c);
    let v1 = s1.val();
    let v2 = s2.val();
    assert(near::off(v2 * p, kc, 2 * ej));
    assert(near::off(v1 * p, bb, ej)) by (nonlinear_arith)
        requires
            near::off(v1 * p, bb, 1024 * e * p),
            ep == e * p,
            0x10_0000 * ep <= ej,
            ep > 0,
    ;
    let g = v1 + v2;
    assert(g * p == v1 * p + v2 * p) by (nonlinear_arith)
        requires
            g == v1 + v2,
    ;
    assert(near::off(g * p, sum, 3 * ej));
    assert(near::off(g * p, 0, 0x2000_0000_0000 * ej));
    let z = near::size(g);
    assert(z * p == near::size(g * p)) by (nonlinear_arith)
        requires
            z == near::size(g),
            p > 0,
    ;
    assert(z <= pow2(2000)) by (nonlinear_arith)
        requires
            z * p <= pow2(2000) * p,
            p > 0,
    ;
    near::lemma_sum_relative(s1, s2);
    let d = s1.plus(s2).val();
    let h = near::size(d - g);
    assert(near::off(d * p, g * p, 2 * ej)) by (nonlinear_arith)
        requires
            h == near::size(d - g),
            TWO53 * h <= z + TWO53,
            z * p <= 0x2000_0000_0000 * ej,
            p <= ej,
            p > 0,
            TWO53 == 0x20_0000_0000_0000,
    {
        assert((TWO53 * h) * p <= (z + TWO53) * p);
        assert((TWO53 * h) * p == TWO53 * (h * p));
        assert((z + TWO53) * p == z * p + TWO53 * p);
        assert(h * p <= 2 * ej);
        assert(h * p == near::size((d - g) * p));
        assert((d - g) * p == d * p - g * p);
    }
    assert(near::off(d * p * pp, vv, 92010 * ej * pp)) by (nonlinear_arith)
        requires
            near::off(d * p, sum, 5 * ej),
            near::off(sum * pp, vv, 92000 * ej * pp),
            pp > 0,
            ej >= 0,
    {
        assert(near::off(d * p * pp, sum * pp, 5 * ej * pp));
        assert(92005 * ej * pp <= 92010 * ej * pp);
    }
    order::lemma_zero();
    if d < 0 {
        assert(d * p * pp <= 0 && 0 * p * pp == 0) by (nonlinear_arith)
            requires
                d < 0,
                p > 0,
                pp > 0,
        ;
        assert(0 * p == 0);
    }
}

/// How a steep slope, a step and one compare.
#[verifier::spinoff_prover]
#[verifier::rlimit(80)]
proof fn lemma_steep_sizes(j: int)
    requires
        0x10_0000 * scale::unit() <= j <= pow2(1974),
    ensures
        ({
            let p = scale::unit();
            let e = scale::step();
            let ej = e * j;
            &&& 0 < e * p
            &&& 0x10_0000 * (e * p) <= ej
            &&& p * p == 0x1000_0000_0000 * (e * p)
            &&& 0 < p * p <= 0x100_0000 * ej
            &&& p <= ej
            &&& 0x2000_0000_0000 * ej <= pow2(2000) * p
            &&& 0x2000_0000_0000 * ej <= pow2(2000) as int * pow2(2000)
        }),
{
    let p = scale::unit();
    let e = scale::step();
    let ej = e * j;
    let ep = e * p;
    scale::lemma_scale();
    assert(ep > 0 && p <= ep) by (nonlinear_arith)
        requires
            ep == e * p,
            e >= 1,
            p > 0,
    ;
    assert(0x10_0000 * ep <= ej) by (nonlinear_arith)
        requires
            0x10_0000 * p <= j,
            e > 0,
            ep == e * p,
            ej == e * j,
    ;
    assert(p * p == 0x1000_0000_0000 * ep) by (nonlinear_arith)
        requires
            p == 0x1000_0000_0000 * e,
            ep == e * p,
    ;
    lemma2_to64();
    lemma2_to64_rest();
    lemma_pow2_adds(1030, 1974);
    lemma_pow2_adds(45, 3004);
    lemma_pow2_adds(2000, 1074);
    lemma_pow2_adds(2000, 2000);
    lemma_pow2_strictly_increases(3049, 3074);
    lemma_pow2_strictly_increases(3049, 4000);
    assert(ej <= pow2(3004)) by (nonlinear_arith)
        requires
            ej == e * j,
            0 <= j <= pow2(1974),
            e == pow2(1030),
            pow2(3004) == pow2(1030) * pow2(1974),
            e > 0,
    {
        assert(e * j <= e * pow2(1974));
    }
}

/// How much the tempo has changed, as it is worked out from the beats.
pub open spec fn change(s: TempoSegment, c: Flt) -> Flt {
    let disc = s.bpm0.times(s.bpm0).plus(Flt::two().times(s.slope()).times(c));
    s.bpm0.negated().plus(disc.larger(Flt::zero()).root())
}

/// The tempo at the end of a steep ramp, as it is worked out, less that at its
/// start.
#[verifier::spinoff_prover]
#[verifier::rlimit(80)]
proof fn lemma_steep_change(s: TempoSegment, x: int, c: Flt)
    requires
        segment::fits(s),
        0x10_0000 * scale::unit() <= near::size(s.slope().val()),
        segment::lasts(s, x),
        c.finite(),
        near::off(
            c.val() * (2 * scale::unit() * scale::unit()),
            area::swept(s.bpm0.val(), s.slope().val(), x),
            46000 * scale::step() * (2 * scale::unit() * scale::unit()),
        ),
    ensures
        ({
            let y = change(s, c);
            &&& y.finite()
            &&& near::off(
                scale::unit() * y.val(),
                s.slope().val() * x,
                3247144 * (scale::step() * near::size(s.slope().val())),
            )
        }),
{
    let p = scale::unit();
    let e = scale::step();
    let pp = p * p;
    let kv = s.slope().val();
    let j = near::size(kv);
    let b = s.bpm0.val();
    let v = segment::pace(s, x);
    let ej = e * j;
    scale::lemma_scale();
    segment::lemma_fits(s);
    lemma_steep_square_found(s, x, c);
    lemma_steep_sizes(j);
    let disc = s.bpm0.times(s.bpm0).plus(Flt::two().times(s.slope()).times(c)).larger(
        Flt::zero(),
    );
    let w = disc.val() * p;
    assert(w >= 0) by (nonlinear_arith)
        requires
            w == disc.val() * p,
            disc.val() >= 0,
            p > 0,
    ;
    let k = near::lemma_root_exponent(w, 2000);
    let u = pow2((k - 54) as nat) as int;
    let r = disc.root();
    let rv = r.val();
    lemma2_to64();
    lemma2_to64_rest();
    lemma_pow2_pos((k - 54) as nat);
    if k < 2000 {
        lemma_pow2_strictly_increases(k, 2000);
    }
    if disc.val() > 0 {
        near::lemma_root_near(disc, k);
    } else {
        order::lemma_positive(disc);
        flt::lemma_compare(disc, disc);
        assert(r == disc);
        assert(w == 0 && (0 + u) * (0 + u) >= 0 && (0 - u) * (0 - u) >= 0) by (nonlinear_arith)
            requires
                w == disc.val() * p,
                disc.val() == 0,
        ;
    }
    if k > 54 {
        lemma_pow2_adds(53, (k - 54) as nat);
        let h = pow2((k - 1) as nat) as int;
        assert(p * u <= ej) by (nonlinear_arith)
            requires
                h * h < w,
                w <= 0x1000_0000_0000 * ej,
                h == TWO53 * u,
                p * p <= 0x100_0000 * ej,
                TWO53 == 0x20_0000_0000_0000,
                u > 0,
                p > 0,
                ej > 0,
        {
            let uu = u * u;
            assert(h * h == (TWO53 * TWO53) * uu);
            assert((0x100_0000 * 0x100_0000) * uu <= ej);
            let q = p * u;
            assert(q * q == (p * p) * uu);
            assert((p * p) * uu <= (0x100_0000 * ej) * uu);
            assert((0x100_0000 * ej) * uu == ej * (0x100_0000 * uu));
            assert(ej * (0x100_0000 * uu) <= ej * ej);
            if q > ej {
                assert(q * q > ej * ej);
            }
        }
    } else {
        assert(p * u == p) by (nonlinear_arith)
            requires
                u == 1,
        ;
    }
    lemma_steep_tempo_found(p, e, j, v, w, rv, u);
    order::lemma_negated(s.bpm0);
    lemma_pow2_strictly_increases(1084, 2000);
    near::lemma_sum_relative(s.bpm0.negated(), r);
    let y = s.bpm0.negated().plus(r);
    let yv = y.val();
    let g = rv - b;
    let z = near::size(g);
    let h = near::size(yv - g);
    assert(p * g == p * rv - b * p) by (nonlinear_arith)
        requires
            g == rv - b,
    ;
    assert(pp <= b * p <= 1000 * pp) by (nonlinear_arith)
        requires
            p <= b <= 1000 * p,
            p > 0,
            pp == p * p,
    ;
    assert(near::off(p * g, kv * x, 3200001 * ej));
    assert(z * p == near::size(p * g)) by (nonlinear_arith)
        requires
            z == near::size(g),
            p > 0,
    ;
    assert(z * p <= 0x8_0000_0000 * ej);
    assert(near::off(p * yv, p * g, 2 * ej)) by (nonlinear_arith)
        requires
            h == near::size(yv - g),
            TWO53 * h <= z + TWO53,
            z * p <= 0x8_0000_0000 * ej,
            p <= ej,
            p > 0,
            TWO53 == 0x20_0000_0000_0000,
    {
        assert((TWO53 * h) * p <= (z + TWO53) * p);
        assert((TWO53 * h) * p == TWO53 * (h * p));
        assert((z + TWO53) * p == z * p + TWO53 * p);
        assert(h * p <= 2 * ej);
        assert(h * p == near::size((yv - g) * p));
        assert((yv - g) * p == p * yv - p * g);
    }
}

/// The same on a ramp that is not steep.
#[verifier::spinoff_prover]
#[verifier::rlimit(80)]
proof fn lemma_gentle_change(s: TempoSegment, x: int, c: Flt)
    requires
        segment::fits(s),
        s.slope().val() != 0,
        near::size(s.slope().val()) <= 0x10_0000 * scale::unit(),
        segment::lasts(s, x),
        c.finite(),
        near::off(
            c.val() * (2 * scale::unit() * scale::unit()),
            area::swept(s.bpm0.val(), s.slope().val(), x),
            46000 * scale::step() * (2 * scale::unit() * scale::unit()),
        ),
    ensures
        ({
            let y = change(s, c);
            &&& y.finite()
            &&& near::off(
                scale::unit() * y.val(),
                s.slope().val() * x,
                3247144 * (scale::step() * near::size(s.slope().val())),
            )
        }),
{
    let p = scale::unit();
    let e = scale::step();
    let k = s.slope();
    let kv = k.val();
    let j = near::size(kv);
    let b = s.bpm0.val();
    let v = segment::pace(s, x);
    scale::lemma_scale();
    segment::lemma_fits(s);
    lemma_square_found(s, x, c);
    let disc = s.bpm0.times(s.bpm0).plus(Flt::two().times(k).times(c)).larger(Flt::zero());
    assert(disc.val() * p <= pow2(1084) as int * pow2(1084)) by (nonlinear_arith)
        requires
            disc.val() <= 0x10_0000 * p,
            p > 0,
            pow2(1084) == 1024 * p,
    ;
    let r = disc.root();
    let rv = r.val();
    if disc.val() > 0 {
        near::lemma_root_near(disc, 1084);
    } else {
        order::lemma_positive(disc);
        flt::lemma_compare(disc, disc);
        assert(r == disc);
        assert(disc.val() * p == 0 && (0 + e) * (0 + e) >= 0) by (nonlinear_arith)
            requires
                disc.val() == 0,
        ;
    }
    let ej = e * j;
    assert(ej >= 0 && e * p >= 0 && e * p <= 1024 * ej) by (nonlinear_arith)
        requires
            e > 0,
            j >= 0,
            p > 0,
            p <= 1024 * j,
            ej == e * j,
    ;
    lemma_tempo_found(p, e, j, v, disc.val() * p, rv);
    order::lemma_negated(s.bpm0);
    near::lemma_sum_near(s.bpm0.negated(), r, 1084);
    let yv = s.bpm0.negated().plus(r).val();
    assert(near::off(p * yv, kv * x, 3247144 * ej)) by (nonlinear_arith)
        requires
            near::off(yv, rv - b, e),
            near::off(p * rv, v, 3247144 * ej - e * p),
            v == b * p + kv * x,
            p > 0,
    {
        assert(near::off(p * yv, p * (rv - b), p * e));
        assert(p * (rv - b) == p * rv - p * b);
    }
}

/// On a ramp the time of a beat is the time at which it has passed.
#[verifier::spinoff_prover]
#[verifier::rlimit(80)]
proof fn lemma_back_ramp(s: TempoSegment, x: int, beats: Flt, c: int)
    requires
        segment::fits(s),
        s.slope().val() != 0,
        segment::lasts(s, x),
        beats.finite(),
        0 <= c <= 40000,
        segment::counts(s, x, beats.val(), c),
    ensures
        s.time_at(beats).finite(),
        near::off(s.time_at(beats).val(), s.t0.val() + x, 3260000 * scale::step()),
{
    let p = scale::unit();
    let e = scale::step();
    let pp = p * p;
    let n = 60 * (beats.val() - s.beats0.val());
    let k = s.slope();
    let kv = k.val();
    let j = near::size(kv);
    let b = s.bpm0.val();
    let v = segment::pace(s, x);
    scale::lemma_scale();
    segment::lemma_fits(s);
    order::lemma_zero();
    lemma_counts_as_slope(k);
    segment::lemma_since_start(s, x, beats, c);
    segment::lemma_no_beats(s, x, n, c);
    assert(c * e <= 40000 * e) by (nonlinear_arith)
        requires
            c <= 40000,
            e > 0,
    ;
    let delta = beats.minus(s.beats0);
    if !delta.at_most(Flt::zero()) {
        let sixtieths = delta.times(Flt::sixty());
        let cv = sixtieths.val();
        let a = area::swept(b, kv, x);
        assert(near::off(cv * (2 * p * p), a, 46000 * e * (2 * p * p))) by (nonlinear_arith)
            requires
                near::off(n * (2 * p * p), a, c * e * (2 * p * p)),
                near::off(cv, n, 5888 * e),
                c * e <= 40000 * e,
                e > 0,
                p > 0,
        {
            let q = 2 * p * p;
            assert(q > 0);
            assert(near::off(cv * q, n * q, 5888 * e * q));
            assert(c * e * q <= 40000 * e * q);
        }
        let ej = e * j;
        if j <= 0x10_0000 * p {
            lemma_gentle_change(s, x, sixtieths);
        } else {
            lemma_steep_change(s, x, sixtieths);
        }
        let y = change(s, sixtieths);
        let yv = y.val();
        assert(near::size(yv) * p <= pow2(1085) * j) by (nonlinear_arith)
            requires
                near::off(p * yv, kv * x, 3247144 * ej),
                0 <= x <= 1024 * p,
                j == near::size(kv),
                ej == e * j,
                p == 0x1000_0000_0000 * e,
                e > 0,
                pow2(1085) == 2048 * p,
        {
            assert(near::off(kv * x, 0, j * x));
            assert(j * x <= j * (1024 * p));
            assert(3247144 * ej <= j * p);
            assert(near::size(yv) * p == near::size(p * yv));
        }
        near::lemma_quotient_near(y, k, 1085);
        let d = y.over(k);
        let dv = d.val();
        assert(near::off(dv, x, 3250000 * e)) by (nonlinear_arith)
            requires
                near::off(dv * kv, yv * p, 2 * e * j),
                near::off(p * yv, kv * x, 3247144 * ej),
                ej == e * j,
                j == near::size(kv),
                kv != 0,
                e > 0,
        {
            assert(near::off(dv * kv, kv * x, 3247146 * ej));
            let g = dv - x;
            assert(g * kv == dv * kv - kv * x);
            assert(near::size(g) * j == near::size(g * kv));
            assert(near::size(g) * j <= (3247146 * e) * j);
            assert(j > 0);
            assert(near::size(g) <= 3247146 * e);
        }
        near::lemma_sum_near(s.t0, d.larger(Flt::zero()), 1086);
    }
}

/// The time of a beat is the time at which it has passed.
pub proof fn lemma_back(s: TempoSegment, x: int, beats: Flt, c: int)
    requires
        segment::fits(s),
        segment::lasts(s, x),
        beats.finite(),
        0 <= c <= 40000,
        segment::counts(s, x, beats.val(), c),
    ensures
        s.time_at(beats).finite(),
        near::off(s.time_at(beats).val(), s.t0.val() + x, 3260000 * scale::step()),
{
    segment::lemma_fits(s);
    if s.slope().val() == 0 {
        lemma_back_steady(s, x, beats, c);
    } else {
        lemma_back_ramp(s, x, beats, c);
    }
}

/// In one segment, steady or a ramp, the time of the beats at a time is that
/// time, to within 2^-22 of a second.
pub proof fn time_comes_back_in_segment(s: TempoSegment, u: Flt)
    requires
        segment::fits(s),
        u.finite(),
        segment::lasts(s, u.val() - s.t0.val()),
    ensures
        s.time_at(s.beats_at(u)).finite(),
        near::off(s.time_at(s.beats_at(u)).val(), u.val(), 0x40_0000 * scale::step()),
{
    segment::lemma_fits(s);
    segment::lemma_forward(s, u);
    lemma_back(s, u.val() - s.t0.val(), s.beats_at(u), 15000);
}

} // verus!

//! Later beats do not come at earlier times.
use vstd::arithmetic::power2::*;
use vstd::prelude::*;

use crate::flt;
use crate::flt::near;
use crate::flt::order;
use crate::flt::Flt;
use crate::inverse::area;
use crate::inverse::back;
use crate::inverse::course;
use crate::inverse::scale;
use crate::inverse::segment;
use crate::tempo;
use crate::tempo::TempoSegment;

verus! {

/// The larger powers of two that come up here.
pub proof fn lemma_large()
    ensures
        pow2(1091) == 0x2_0000 * scale::unit(),
        pow2(1097) == 0x80_0000 * scale::unit(),
        pow2(1098) == 0x100_0000 * scale::unit(),
        pow2(1043) == 8192 * scale::step(),
        pow2(1044) == 16384 * scale::step(),
        scale::unit() > 0,
{
    lemma2_to64();
    lemma2_to64_rest();
    lemma_pow2_pos(1074);
    lemma_pow2_adds(17, 1074);
    lemma_pow2_adds(23, 1074);
    lemma_pow2_adds(24, 1074);
    lemma_pow2_adds(13, 1030);
    lemma_pow2_adds(14, 1030);
}

/// Sixtieths of the beats since a start.
pub proof fn lemma_sixtieths(beats0: Flt, beats: Flt)
    requires
        beats0.finite(),
        beats.finite(),
        0 <= beats0.val() <= 40000 * scale::unit(),
        0 <= beats.val() <= 0x1_0000 * scale::unit(),
    ensures
        beats.minus(beats0).finite(),
        beats.minus(beats0).times(Flt::sixty()).finite(),
        near::off(beats.minus(beats0).times(Flt::sixty()).val(), 0, 0x80_0000 * scale::unit()),
        beats.minus(beats0).val() >= 0 ==> beats.minus(beats0).times(Flt::sixty()).val() >= 0,
{
    let p = scale::unit();
    lemma_large();
    order::lemma_sixty();
    near::lemma_difference_near(beats, beats0, 1091);
    let d = beats.minus(beats0).val();
    let s = Flt::sixty().val();
    assert(near::off(d * s, 0, 0x80_0000 * p * p)) by (nonlinear_arith)
        requires
            near::off(d, 0, 0x2_0000 * p),
            s == 60 * p,
            p > 0,
    {
        assert(near::off(60 * d, 0, 0x80_0000 * p));
        assert(d * s == (60 * d) * p);
    }
    near::lemma_product_near(beats.minus(beats0), Flt::sixty(), 1097);
    if d >= 0 {
        assert(d * s >= 0) by (nonlinear_arith)
            requires
                d >= 0,
                s >= 0,
        ;
    }
}

/// They grow with the beats.
proof fn lemma_sixtieths_grow(beats0: Flt, a: Flt, b: Flt)
    requires
        beats0.finite(),
        a.finite(),
        b.finite(),
        0 <= beats0.val() <= 40000 * scale::unit(),
        0 <= a.val() <= b.val() <= 0x1_0000 * scale::unit(),
        a.minus(beats0).val() >= 0,
    ensures
        a.minus(beats0).val() <= b.minus(beats0).val(),
        a.minus(beats0).times(Flt::sixty()).val() <= b.minus(beats0).times(Flt::sixty()).val(),
{
    order::lemma_zero();
    order::lemma_sixty();
    lemma_sixtieths(beats0, a);
    lemma_sixtieths(beats0, b);
    order::lemma_negated(beats0);
    order::lemma_plus_commutes(a, beats0.negated());
    order::lemma_plus_commutes(b, beats0.negated());
    order::sum_is_monotone(beats0.negated(), a, b);
    order::product_is_monotone(Flt::sixty(), a.minus(beats0), b.minus(beats0));
    area::lemma_times_turns(a.minus(beats0), Flt::sixty());
    area::lemma_times_turns(b.minus(beats0), Flt::sixty());
}

/// The time since the start of a ramp.
pub open spec fn solved(s: TempoSegment, c: Flt) -> Flt {
    let k = s.slope();
    let disc = s.bpm0.times(s.bpm0).plus(Flt::two().times(k).times(c));
    s.bpm0.negated().plus(disc.larger(Flt::zero()).root()).over(k)
}

/// What is worked out on the way to the time since the start of a ramp.
#[verifier::spinoff_prover]
#[verifier::rlimit(80)]
proof fn lemma_solved(s: TempoSegment, c: Flt)
    requires
        segment::fits(s),
        s.slope().val() != 0,
        c.finite(),
        0 <= c.val() <= 0x80_0000 * scale::unit(),
    ensures
        ({
            let k2 = Flt::two().times(s.slope());
            let s1 = s.bpm0.times(s.bpm0);
            let s2 = k2.times(c);
            let disc = s1.plus(s2);
            let m = disc.larger(Flt::zero());
            let y = s.bpm0.negated().plus(m.root());
            &&& k2.finite()
            &&& k2.val() == 2 * s.slope().val()
            &&& s1.finite()
            &&& s2.finite()
            &&& disc.finite()
            &&& m.finite()
            &&& 0 <= m.val()
            &&& m.val() * pow2(1074) <= pow2(2000) as int * pow2(2000)
            &&& m.root().finite()
            &&& y.finite()
            &&& y.over(s.slope()).finite()
        }),
{
    let p = scale::unit();
    let b = s.bpm0.val();
    let k = s.slope().val();
    let cv = c.val();
    let k2 = Flt::two().times(s.slope());
    lemma_large();
    scale::lemma_scale();
    order::lemma_zero();
    segment::lemma_fits(s);
    area::lemma_halves(s.slope());
    assert(near::off(b * b, 0, 0x10_0000 * p * p)) by (nonlinear_arith)
        requires
            p <= b <= 1000 * p,
            p > 0,
    ;
    near::lemma_product_near(s.bpm0, s.bpm0, 1094);
    lemma2_to64();
    lemma_pow2_adds(24, 1974);
    lemma_pow2_adds(10, 1538);
    lemma_pow2_adds(1537, 1537);
    lemma_pow2_adds(1999, 1074);
    lemma_pow2_unfold(1999);
    lemma_pow2_unfold(1538);
    lemma_pow2_unfold(3074);
    lemma_pow2_strictly_increases(1094, 1998);
    lemma_pow2_strictly_increases(1537, 2000);
    lemma_pow2_strictly_increases(1084, 1537);
    let top = pow2(1974) as int;
    assert(near::off(k2.val() * cv, 0, pow2(1998) * p)) by (nonlinear_arith)
        requires
            k2.val() == 2 * k,
            near::size(k) <= top,
            0 <= cv <= 0x80_0000 * p,
            pow2(1998) == 0x100_0000 * top,
            p > 0,
    {
        assert(near::off(k2.val() * cv, 0, (2 * top) * cv));
        assert((2 * top) * cv <= (2 * top) * (0x80_0000 * p));
    }
    near::lemma_product_near(k2, c, 1998);
    let s1 = s.bpm0.times(s.bpm0);
    let s2 = k2.times(c);
    near::lemma_sum_near(s1, s2, 1999);
    let m = s1.plus(s2).larger(Flt::zero());
    let mv = m.val();
    assert(mv * pow2(1074) <= pow2(1537) as int * pow2(1537)) by (nonlinear_arith)
        requires
            0 <= mv <= pow2(1999),
            pow2(1999) as int * pow2(1074) == pow2(3073),
            2 * pow2(3073) == pow2(3074),
            pow2(1537) as int * pow2(1537) == pow2(3074),
            pow2(1074) > 0,
    {
        assert(mv * pow2(1074) <= pow2(1999) as int * pow2(1074));
    }
    assert(pow2(1537) as int * pow2(1537) <= pow2(2000) as int * pow2(2000)) by (nonlinear_arith)
        requires
            0 <= pow2(1537) <= pow2(2000),
    ;
    if mv > 0 {
        near::lemma_root_near(m, 1537);
    } else {
        order::lemma_positive(m);
        flt::lemma_compare(m, m);
        assert(m.root() == m);
    }
    order::lemma_negated(s.bpm0);
    near::lemma_sum_near(s.bpm0.negated(), m.root(), 1538);
    let y = s.bpm0.negated().plus(m.root());
    assert(near::size(y.val()) * pow2(1074) <= pow2(1548) * near::size(k)) by (nonlinear_arith)
        requires
            near::size(y.val()) <= pow2(1538),
            p == pow2(1074),
            p > 0,
            p <= 1024 * near::size(k),
            pow2(1548) == 1024 * pow2(1538),
            pow2(1538) > 0,
    {
        assert(near::size(y.val()) * p <= pow2(1538) * p);
        assert(pow2(1538) * p <= pow2(1538) * (1024 * near::size(k)));
    }
    near::lemma_quotient_near(y, s.slope(), 1548);
}

/// A quotient does not change where both signs turn; and turns where one does.
proof fn lemma_over_turns(a: Flt, b: Flt)
    requires
        a.finite(),
        b.finite(),
        b.val() != 0,
    ensures
        a.negated().over(b.negated()) == a.over(b),
        !a.over(b).nan() ==> a.negated().over(b).val() == -a.over(b).val(),
{
    order::lemma_negated(a);
    order::lemma_negated(b);
    flt::lemma_compare(a, b);
    let x = flt::weight(a.mag());
    let y = flt::weight(b.mag());
    flt::lemma_weight_step(a.mag());
    flt::lemma_weight_step(b.mag());
    lemma_pow2_pos(1074);
    assert(x * pow2(1074) >= 0) by (nonlinear_arith)
        requires
            x >= 0,
            pow2(1074) > 0,
    ;
    order::lemma_nearest_exists(x * pow2(1074), y);
}

/// Where the tempo rises, more beats take more time.
proof fn lemma_solved_rises(s: TempoSegment, a: Flt, b: Flt)
    requires
        segment::fits(s),
        s.slope().val() > 0,
        a.finite(),
        b.finite(),
        0 <= a.val() <= b.val() <= 0x80_0000 * scale::unit(),
    ensures
        solved(s, a).larger(Flt::zero()).at_most(solved(s, b).larger(Flt::zero())),
{
    let k = s.slope();
    let k2 = Flt::two().times(k);
    let s1 = s.bpm0.times(s.bpm0);
    order::lemma_zero();
    segment::lemma_fits(s);
    lemma_solved(s, a);
    lemma_solved(s, b);
    order::product_is_monotone(k2, a, b);
    order::sum_is_monotone(s1, k2.times(a), k2.times(b));
    let m = s1.plus(k2.times(a)).larger(Flt::zero());
    let n = s1.plus(k2.times(b)).larger(Flt::zero());
    near::root_is_monotone(m, n);
    let r = s.bpm0.negated();
    order::lemma_negated(s.bpm0);
    order::sum_is_monotone(r, m.root(), n.root());
    let x = r.plus(m.root());
    let y = r.plus(n.root());
    if x.val() >= 0 {
        order::quotient_is_monotone(x, y, k);
    } else {
        order::lemma_negated(x);
        lemma_over_turns(x, k);
        order::lemma_quotient_value(x.negated(), k);
    }
}

/// Where it falls, too.
proof fn lemma_solved_falls(s: TempoSegment, a: Flt, b: Flt)
    requires
        segment::fits(s),
        s.slope().val() < 0,
        a.finite(),
        b.finite(),
        0 <= a.val() <= b.val() <= 0x80_0000 * scale::unit(),
    ensures
        solved(s, a).larger(Flt::zero()).at_most(solved(s, b).larger(Flt::zero())),
{
    let k = s.slope();
    let k2 = Flt::two().times(k);
    let s1 = s.bpm0.times(s.bpm0);
    order::lemma_zero();
    segment::lemma_fits(s);
    lemma_solved(s, a);
    lemma_solved(s, b);
    order::lemma_negated(k2);
    order::lemma_negated(k);
    order::product_is_monotone(k2.negated(), a, b);
    area::lemma_times_turns(k2, a);
    area::lemma_times_turns(k2, b);
    order::sum_is_monotone(s1, k2.times(b), k2.times(a));
    let m = s1.plus(k2.times(a)).larger(Flt::zero());
    let n = s1.plus(k2.times(b)).larger(Flt::zero());
    near::root_is_monotone(n, m);
    let r = s.bpm0.negated();
    order::lemma_negated(s.bpm0);
    order::sum_is_monotone(r, n.root(), m.root());
    let x = r.plus(m.root());
    let y = r.plus(n.root());
    order::lemma_negated(x);
    order::lemma_negated(y);
    lemma_over_turns(x, k);
    lemma_over_turns(y, k);
    lemma_over_turns(x, k.negated());
    if x.val() <= 0 {
        order::quotient_is_monotone(x.negated(), y.negated(), k.negated());
    } else {
        order::lemma_quotient_value(x, k.negated());
        lemma_over_turns(x.negated(), k.negated());
    }
}

/// In one segment, later beats do not come at earlier times.
#[verifier::spinoff_prover]
#[verifier::rlimit(80)]
pub proof fn segment_time_never_runs_back(s: TempoSegment, a: Flt, b: Flt)
    requires
        segment::fits(s),
        a.finite(),
        b.finite(),
        0 <= a.val() <= b.val() <= 0x1_0000 * scale::unit(),
    ensures
        s.time_at(a).at_most(s.time_at(b)),
        s.t0.at_most(s.time_at(a)),
{
    let da = a.minus(s.beats0);
    let db = b.minus(s.beats0);
    let ca = da.times(Flt::sixty());
    let cb = db.times(Flt::sixty());
    let k = s.slope();
    order::lemma_zero();
    order::lemma_tiny();
    segment::lemma_fits(s);
    lemma_sixtieths(s.beats0, a);
    lemma_sixtieths(s.beats0, b);
    order::lemma_negated(s.beats0);
    order::lemma_plus_commutes(a, s.beats0.negated());
    order::lemma_plus_commutes(b, s.beats0.negated());
    order::sum_is_monotone(s.beats0.negated(), a, b);
    if k.val() == 0 {
        flt::lemma_compare(k, k);
        assert(flt::signed(false, 0) == Flt::zero());
        assert(tempo::positive(s.bpm0) == s.bpm0);
        if !db.at_most(Flt::zero()) {
            order::quotient_is_monotone(cb, cb, s.bpm0);
            order::sum_never_shrinks(s.t0, cb.over(s.bpm0));
            if !da.at_most(Flt::zero()) {
                lemma_sixtieths_grow(s.beats0, a, b);
                order::quotient_is_monotone(ca, cb, s.bpm0);
                order::sum_never_shrinks(s.t0, ca.over(s.bpm0));
                order::sum_grows(s.t0, ca.over(s.bpm0), cb.over(s.bpm0));
            }
        }
    } else {
        back::lemma_counts_as_slope(k);
        if !db.at_most(Flt::zero()) {
            let y = solved(s, cb).larger(Flt::zero());
            lemma_solved(s, cb);
            order::sum_never_shrinks(s.t0, y);
            if !da.at_most(Flt::zero()) {
                let x = solved(s, ca).larger(Flt::zero());
                lemma_sixtieths_grow(s.beats0, a, b);
                if k.val() > 0 {
                    lemma_solved_rises(s, ca, cb);
                } else {
                    lemma_solved_falls(s, ca, cb);
                }
                order::sum_never_shrinks(s.t0, x);
                order::sum_grows(s.t0, x, y);
            }
        }
    }
}

/// In a map, later beats do not come at times that are earlier by more than
/// 2^-22 of a second.
#[verifier::spinoff_prover]
#[verifier::rlimit(80)]
pub proof fn map_time_never_runs_back(segs: Seq<TempoSegment>, a: Flt, b: Flt)
    requires
        course::joined(segs),
        a.finite(),
        b.finite(),
        a.val() <= b.val() <= 0x1_0000 * scale::unit(),
    ensures
        tempo::time_at(segs, a).val() <= tempo::time_at(segs, b).val() + 0x40_0000
            * scale::step(),
{
    let n = segs.len() as int;
    order::lemma_zero();
    scale::lemma_scale();
    if b.at_most(Flt::zero()) {
    } else {
        let j = tempo::beat_segment(segs, b, 0, n - 1);
        course::lemma_segment_of_beats(segs, b);
        let t = segs[j];
        assert(segment::fits(t));
        segment_time_never_runs_back(t, b, b);
        if !a.at_most(Flt::zero()) {
            let i = tempo::beat_segment(segs, a, 0, n - 1);
            course::lemma_segment_of_beats(segs, a);
            let s = segs[i];
            assert(segment::fits(s));
            if i == j {
                segment_time_never_runs_back(s, a, b);
            } else if i < j {
                assert(course::closes(s));
                assert(segs[i + 1].t0.val() == segs[i].t1.val());
                assert(segs[i + 1].t0.val() <= segs[j].t0.val());
                assert(segs[i + 1].beats0.val() == segs[i].beats1.val());
                assert(segment::fits(segs[i + 1]));
                segment_time_never_runs_back(s, a, s.beats1);
                back::lemma_back(s, s.t1.val() - s.t0.val(), s.beats1, 24000);
            } else {
                course::lemma_beats_in_order(segs, j + 1, i);
                assert(segs[j + 1].beats0.val() == segs[j].beats1.val());
                assert(segs[i].beats0.val() == segs[i - 1].beats1.val());
            }
        }
    }
}

} // verus!

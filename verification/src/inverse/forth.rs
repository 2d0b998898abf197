//! How well a map counts the beats at the time of a beat.
use vstd::arithmetic::power2::*;
use vstd::prelude::*;

use crate::flt;
use crate::flt::near;
use crate::flt::order;
use crate::flt::Flt;
use crate::inverse::area;
use crate::inverse::back;
use crate::inverse::built;
use crate::inverse::course;
use crate::inverse::rising;
use crate::inverse::scale;
use crate::inverse::segment;
use crate::tempo;
use crate::tempo::TempoSegment;

verus! {

/// Some time lies just before an area is reached.
proof fn lemma_reached(b: int, k: int, area_due: int, lo: int, hi: int) -> (x: int)
    requires
        lo < hi,
        area::swept(b, k, lo) <= area_due < area::swept(b, k, hi),
    ensures
        lo <= x < hi,
        area::swept(b, k, x) <= area_due < area::swept(b, k, x + 1),
    decreases hi - lo,
{
    if lo + 1 == hi || area_due < area::swept(b, k, lo + 1) {
        lo
    } else {
        lemma_reached(b, k, area_due, lo + 1, hi)
    }
}

/// In one segment, steady or a ramp, the beats at the time of a beat are that
/// beat, to within 2^-18 of a beat. The beat lies in the segment, and 2^-22 of
/// a second or more before its end.
#[verifier::spinoff_prover]
#[verifier::rlimit(80)]
pub proof fn beats_come_back_in_segment(s: TempoSegment, beats: Flt, y: int)
    requires
        segment::fits(s),
        segment::lasts(s, y),
        y > 0x40_0000 * scale::step(),
        beats.finite(),
        s.beats0.val() <= beats.val() <= 0x1_0000 * scale::unit(),
        60 * (beats.val() - s.beats0.val()) * (2 * scale::unit() * scale::unit()) < area::swept(
            s.bpm0.val(),
            s.slope().val(),
            y - 0x40_0000 * scale::step(),
        ),
    ensures
        s.beats_at(s.time_at(beats)).finite(),
        near::off(
            s.beats_at(s.time_at(beats)).val(),
            beats.val(),
            0x400_0000 * scale::step(),
        ),
{
    let p = scale::unit();
    let e = scale::step();
    let pp = p * p;
    let q = 2 * p * p;
    let b = s.bpm0.val();
    let k = s.slope().val();
    let n = 60 * (beats.val() - s.beats0.val());
    scale::lemma_scale();
    segment::lemma_fits(s);
    order::lemma_zero();
    assert(q == 2 * pp && n * q >= 0) by (nonlinear_arith)
        requires
            n >= 0,
            q == 2 * p * p,
            pp == p * p,
    ;
    assert(area::swept(b, k, 0) == 0) by (nonlinear_arith)
        requires
            area::swept(b, k, 0) == 0 * (2 * b * p + k * 0),
    ;
    let x = lemma_reached(b, k, n * q, 0, y - 0x40_0000 * e);
    segment::lemma_lasts_before(s, x, y);
    segment::lemma_lasts_before(s, x + 1, y);
    area::lemma_swept_apart(b, k, x, x + 1, p);
    let ax = area::swept(b, k, x);
    let v1 = segment::pace(s, x) + segment::pace(s, x + 1);
    assert(area::swept(b, k, x + 1) - ax == v1) by {
        assert((x + 1 - x) * v1 == v1) by (nonlinear_arith);
    }
    assert(v1 <= 2002 * pp);
    assert(near::off(n * q, ax, 2002 * pp));
    assert(segment::counts(s, x, beats.val(), 1)) by {
        lemma2_to64();
        lemma_pow2_strictly_increases(10, 1030);
        assert(2002 * pp <= 1 * e * q) by (nonlinear_arith)
            requires
                q == 2 * pp,
                pp == p * p,
                e >= 1001,
        ;
    }
    back::lemma_back(s, x, beats, 1);
    rising::segment_time_never_runs_back(s, beats, beats);
    let t = s.time_at(beats);
    let z = t.val() - s.t0.val();
    segment::lemma_lasts_before(s, z, y);
    segment::lemma_forward(s, t);
    area::lemma_swept_apart(b, k, x, z, p);
    let az = area::swept(b, k, z);
    let v = segment::pace(s, x) + segment::pace(s, z);
    let m = 60 * (s.beats_at(t).val() - s.beats0.val());
    assert(near::off(m, n, 3263275001 * e)) by (nonlinear_arith)
        requires
            near::off(m * q, az, 15000 * e * q),
            near::off(n * q, ax, 1 * e * q),
            az - ax == (z - x) * v,
            near::off(z, x, 3260000 * e),
            0 <= v <= 2002 * pp,
            q == 2 * pp,
            pp == p * p,
            p > 0,
            e > 0,
    {
        assert(near::off((z - x) * v, 0, (3260000 * e) * v));
        assert((3260000 * e) * v <= (3260000 * e) * (2002 * pp));
        assert((3260000 * e) * (2002 * pp) == (3263260000 * e) * q);
        assert(m * q <= (n + 3263275001 * e) * q);
        assert((n - 3263275001 * e) * q <= m * q);
        assert(q > 0);
    }
}

/// How many beats pass from one segment to another at the most.
#[verifier::spinoff_prover]
#[verifier::rlimit(80)]
proof fn lemma_gain(segs: Seq<TempoSegment>, i: int, j: int)
    requires
        course::joined(segs),
        0 <= i <= j < segs.len(),
    ensures
        60 * (segs[j].beats0.val() - segs[i].beats0.val()) <= 1002 * (segs[j].t0.val()
            - segs[i].t0.val()) + course::briefs(segs, i, j) * (24000 * scale::step()),
    decreases j - i,
{
    let e = scale::step();
    if i < j {
        let s = segs[j - 1];
        assert(segment::fits(s));
        assert(course::closes(s));
        assert(segs[j].beats0.val() == s.beats1.val());
        assert(segs[j].t0.val() == s.t1.val());
        lemma_gain(segs, i, j - 1);
        built::lemma_beats_of(s);
        segment::lemma_fits(s);
        let m = course::briefs(segs, i, j - 1);
        assert((m + 1) * (24000 * e) == m * (24000 * e) + 24000 * e) by (nonlinear_arith);
    } else {
        assert(0 * (24000 * e) == 0) by (nonlinear_arith);
    }
}

/// The beats at two times of one segment.
#[verifier::spinoff_prover]
#[verifier::rlimit(80)]
proof fn lemma_gain_within(s: TempoSegment, x: int, y: int, a: int, b: int, c: int, d: int)
    requires
        segment::fits(s),
        segment::lasts(s, x),
        segment::lasts(s, y),
        segment::counts(s, x, a, c),
        segment::counts(s, y, b, d),
    ensures
        x <= y ==> 60 * (b - a) <= 1001 * (y - x) + (c + d) * scale::step(),
        x <= y ==> 60 * (a - b) <= (c + d) * scale::step(),
{
    let p = scale::unit();
    let e = scale::step();
    let q = 2 * p * p;
    let pp = p * p;
    let m = 60 * (a - s.beats0.val());
    let n = 60 * (b - s.beats0.val());
    let ax = area::swept(s.bpm0.val(), s.slope().val(), x);
    let ay = area::swept(s.bpm0.val(), s.slope().val(), y);
    let v = segment::pace(s, x) + segment::pace(s, y);
    segment::lemma_fits(s);
    area::lemma_swept_apart(s.bpm0.val(), s.slope().val(), x, y, p);
    assert(q == 2 * pp && pp > 0) by (nonlinear_arith)
        requires
            q == 2 * p * p,
            pp == p * p,
            p > 0,
    ;
    if x <= y {
        assert(0 <= (y - x) * v <= (1001 * (y - x)) * q) by (nonlinear_arith)
            requires
                x <= y,
                0 <= v <= 2002 * pp,
                q == 2 * pp,
        {
            assert((y - x) * v <= (y - x) * (2002 * pp));
        }
        assert(n - m <= 1001 * (y - x) + (c + d) * e && m - n <= (c + d) * e)
            by (nonlinear_arith)
            requires
                near::off(m * q, ax, c * e * q),
                near::off(n * q, ay, d * e * q),
                0 <= ay - ax <= (1001 * (y - x)) * q,
                q > 0,
        {
            assert((c + d) * e * q == c * e * q + d * e * q);
            assert((n - m) * q <= (1001 * (y - x) + (c + d) * e) * q);
            assert((m - n) * q <= ((c + d) * e) * q);
        }
    }
}

/// The place of a beat in its segment.
#[verifier::spinoff_prover]
#[verifier::rlimit(80)]
proof fn lemma_place(s: TempoSegment, beats: int, y: int) -> (x: int)
    requires
        segment::fits(s),
        segment::lasts(s, y),
        s.beats0.val() <= beats,
        60 * (beats - s.beats0.val()) * (2 * scale::unit() * scale::unit()) <= area::swept(
            s.bpm0.val(),
            s.slope().val(),
            y,
        ) + 24000 * scale::step() * (2 * scale::unit() * scale::unit()),
    ensures
        0 <= x <= y,
        segment::lasts(s, x),
        segment::counts(s, x, beats, 24000),
{
    let p = scale::unit();
    let e = scale::step();
    let pp = p * p;
    let q = 2 * p * p;
    let b = s.bpm0.val();
    let k = s.slope().val();
    let n = 60 * (beats - s.beats0.val());
    scale::lemma_scale();
    segment::lemma_fits(s);
    assert(q == 2 * pp && n * q >= 0) by (nonlinear_arith)
        requires
            n >= 0,
            q == 2 * p * p,
            pp == p * p,
    ;
    assert(24000 * e * q >= 0) by (nonlinear_arith)
        requires
            e > 0,
            q == 2 * p * p,
            p > 0,
    ;
    if n * q < area::swept(b, k, y) {
        assert(area::swept(b, k, 0) == 0) by (nonlinear_arith)
            requires
                area::swept(b, k, 0) == 0 * (2 * b * p + k * 0),
        ;
        let x = lemma_reached(b, k, n * q, 0, y);
        segment::lemma_lasts_before(s, x, y);
        segment::lemma_lasts_before(s, x + 1, y);
        area::lemma_swept_apart(b, k, x, x + 1, p);
        let v1 = segment::pace(s, x) + segment::pace(s, x + 1);
        assert((x + 1 - x) * v1 == v1) by (nonlinear_arith);
        assert(2002 * pp <= 24000 * e * q) by {
            assert(2002 * pp <= 24000 * e * q) by (nonlinear_arith)
                requires
                    q == 2 * pp,
                    pp == p * p,
                    e >= 1,
            ;
        }
        x
    } else {
        y
    }
}

/// Where the last tempo goes on, the time of a beat is the time at which it has
/// passed.
#[verifier::spinoff_prover]
#[verifier::rlimit(80)]
pub proof fn lemma_last_back(s: TempoSegment, beats: Flt)
    requires
        segment::fits(s),
        s.slope().val() == 0,
        beats.finite(),
        s.beats0.val() < beats.val() <= 0x1_0000 * scale::unit(),
    ensures
        s.time_at(beats).finite(),
        segment::counts(s, s.time_at(beats).val() - s.t0.val(), beats.val(), 26000000),
{
    let p = scale::unit();
    let e = scale::step();
    let b = s.bpm0.val();
    let n = beats.val() - s.beats0.val();
    let k = s.slope();
    scale::lemma_scale();
    rising::lemma_large();
    segment::lemma_fits(s);
    order::lemma_zero();
    order::lemma_tiny();
    order::lemma_sixty();
    flt::lemma_compare(k, k);
    assert(flt::signed(false, 0) == Flt::zero());
    assert(tempo::positive(s.bpm0) == s.bpm0);
    rising::lemma_sixtieths(s.beats0, beats);
    near::lemma_difference_near(beats, s.beats0, 1091);
    built::lemma_difference_positive(beats, s.beats0);
    let delta = beats.minus(s.beats0);
    let d = delta.val();
    let sx = Flt::sixty().val();
    assert(near::off(d * sx, 0, 0x80_0000 * p * p)) by (nonlinear_arith)
        requires
            near::off(d, 0, 0x2_0000 * p),
            sx == 60 * p,
            p > 0,
    {
        assert(near::off(60 * d, 0, 0x80_0000 * p));
        assert(d * sx == (60 * d) * p);
    }
    near::lemma_product_near(delta, Flt::sixty(), 1097);
    let c = delta.times(Flt::sixty());
    let cv = c.val();
    assert(near::off(cv, 60 * n, 15872 * e)) by (nonlinear_arith)
        requires
            near::off(cv * p, d * sx, 8192 * e * p),
            sx == 60 * p,
            near::off(d, n, 128 * e),
            p > 0,
    {
        assert(near::off(cv, 60 * d, 8192 * e));
    }
    assert(near::size(cv) * p <= pow2(1097) * near::size(b)) by (nonlinear_arith)
        requires
            0 <= cv <= 0x80_0000 * p,
            p <= b,
            p > 0,
            pow2(1097) == 0x80_0000 * p,
    ;
    near::lemma_quotient_near(c, s.bpm0, 1097);
    let r = c.over(s.bpm0);
    let rv = r.val();
    near::lemma_sum_near(s.t0, r, 1098);
    let x = s.time_at(beats).val() - s.t0.val();
    let q = 2 * p * p;
    let a = area::swept(b, 0, x);
    assert(a == 2 * p * (x * b)) by (nonlinear_arith)
        requires
            a == x * (2 * b * p + 0 * x),
    ;
    assert(near::off(60 * n * q, a, 26000000 * e * q)) by (nonlinear_arith)
        requires
            a == 2 * p * (x * b),
            near::off(x, rv, 16384 * e),
            near::off(rv * b, cv * p, 8192 * e * b),
            near::off(cv, 60 * n, 15872 * e),
            p <= b <= 1000 * p,
            q == 2 * p * p,
            p > 0,
            e > 0,
    {
        assert(near::off(x * b, rv * b, 16384 * e * b));
        assert(near::off(x * b, cv * p, 24576 * e * b));
        assert(24576 * e * b <= 24576 * e * (1000 * p));
        assert(near::off(cv * p, 60 * n * p, 15872 * e * p));
        assert(near::off(60 * n * p, x * b, 24591872 * (e * p)));
        assert(near::off(2 * p * (60 * n * p), a, 2 * p * (24591872 * (e * p))));
        assert(2 * p * (60 * n * p) == 60 * n * q);
        assert(2 * p * (24591872 * (e * p)) <= 26000000 * e * q);
    }
}

/// Where a beat and a time that is a little off lie in one map.
#[verifier::spinoff_prover]
#[verifier::rlimit(80)]
proof fn lemma_beats_back(segs: Seq<TempoSegment>, beats: Flt, j: int)
    requires
        course::joined(segs),
        0 <= j < segs.len(),
        beats.finite(),
        segs[j].beats0.val() <= beats.val() <= 0x1_0000 * scale::unit(),
        j == segs.len() - 1 ==> segs[j].beats0.val() < beats.val(),
        j < segs.len() - 1 ==> beats.val() <= segs[j].beats1.val(),
        segs[j].time_at(beats).val() <= 1000 * scale::unit(),
    ensures
        ({
            let t = segs[j].time_at(beats);
            &&& tempo::beats_at(segs, t).finite()
            &&& near::off(
                60 * tempo::beats_at(segs, t).val(),
                60 * beats.val(),
                3270000000 * scale::step() + course::brief_count(segs) * (24000 * scale::step()),
            )
        }),
{
    let e = scale::step();
    let n = segs.len() as int;
    let s = segs[j];
    let t = s.time_at(beats);
    let i = tempo::segment_index(segs, t);
    assert(segment::fits(s));
    segment::lemma_fits(s);
    order::lemma_zero();
    rising::segment_time_never_runs_back(s, beats, beats);
    if j == n - 1 {
        assert(s == segs.last());
        segment::lemma_endless(s);
        lemma_last_back(s, beats);
    } else {
        assert(course::closes(s));
    }
    let m = course::brief_count(segs);
    course::lemma_briefs_within(segs, 0, 0, n - 1);
    assert(m * (24000 * e) >= 0) by (nonlinear_arith)
        requires
            m >= 0,
            e > 0,
    ;
    let y = s.t1.val() - s.t0.val();
    let x = if j < n - 1 {
        lemma_closed_place(s, beats)
    } else {
        t.val() - s.t0.val()
    };
    if j < n - 1 {
        back::lemma_back(s, x, beats, 24000);
    }
    course::lemma_segment_of(segs, t);
    let r = segs[i];
    segment::lemma_forward(r, t);
    let w = t.val() - r.t0.val();
    assert(i >= j) by {
        tempo::lemma_last_started(segs, t, n);
    }
    if i == j {
        if j == n - 1 {
            lemma_gain_within(s, w, w, beats.val(), r.beats_at(t).val(), 26000000, 15000);
        } else if x <= w {
            lemma_gain_within(s, x, w, beats.val(), r.beats_at(t).val(), 24000, 15000);
        } else {
            lemma_gain_within(s, w, x, r.beats_at(t).val(), beats.val(), 15000, 24000);
        }
    } else {
        assert(segs[j + 1].t0.val() == segs[j].t1.val());
        assert(segs[j + 1].beats0.val() == segs[j].beats1.val());
        assert(segs[j + 1].t0.val() <= segs[i].t0.val());
        course::lemma_beats_in_order(segs, j + 1, i);
        lemma_gain(segs, j + 1, i);
        lemma_gain_within(s, x, y, beats.val(), s.beats1.val(), 24000, 24000);
        lemma_start_counts(r);
        segment::lemma_lasts_before(r, 0, w);
        lemma_gain_within(r, 0, w, r.beats0.val(), r.beats_at(t).val(), 0, 15000);
        course::lemma_briefs_within(segs, j + 1, i, n - 1);
        let c = course::briefs(segs, j + 1, i);
        assert(c * (24000 * e) <= m * (24000 * e)) by (nonlinear_arith)
            requires
                c <= m,
                e > 0,
        ;
    }
}

/// The place of a beat in a segment that ends after it.
proof fn lemma_closed_place(s: TempoSegment, beats: Flt) -> (x: int)
    requires
        segment::fits(s),
        course::closes(s),
        s.beats0.val() <= beats.val() <= s.beats1.val(),
    ensures
        0 <= x <= s.t1.val() - s.t0.val(),
        segment::lasts(s, x),
        segment::counts(s, x, beats.val(), 24000),
{
    let p = scale::unit();
    let q = 2 * p * p;
    let y = s.t1.val() - s.t0.val();
    segment::lemma_fits(s);
    assert(60 * (beats.val() - s.beats0.val()) * q <= 60 * (s.beats1.val() - s.beats0.val()) * q)
        by (nonlinear_arith)
        requires
            beats.val() <= s.beats1.val(),
            q == 2 * p * p,
            p > 0,
    {
        assert(q > 0);
    }
    lemma_place(s, beats.val(), y)
}

/// At the start of a segment no beats of it have passed.
proof fn lemma_start_counts(s: TempoSegment)
    requires
        segment::fits(s),
    ensures
        segment::counts(s, 0, s.beats0.val(), 0),
{
    let b = s.bpm0.val();
    let k = s.slope().val();
    let p = scale::unit();
    assert(area::swept(b, k, 0) == 0) by (nonlinear_arith)
        requires
            area::swept(b, k, 0) == 0 * (2 * b * p + k * 0),
    ;
    assert(60 * (s.beats0.val() - s.beats0.val()) * (2 * p * p) == 0) by (nonlinear_arith);
    assert(0 * scale::step() * (2 * p * p) == 0) by (nonlinear_arith);
}

/// However often the tempo was set and ramped: the beats at the time of a beat
/// are that beat, to within 2^-18 of a beat, and 2^-33 more for each segment that
/// is shorter than 2^-20 of a second.
#[verifier::spinoff_prover]
#[verifier::rlimit(80)]
pub proof fn beats_come_back_in_map(segs: Seq<TempoSegment>, beats: Flt)
    requires
        course::joined(segs),
        beats.finite(),
        0 <= beats.val() <= 0x1_0000 * scale::unit(),
        tempo::time_at(segs, beats).val() <= 1000 * scale::unit(),
    ensures
        tempo::beats_at(segs, tempo::time_at(segs, beats)).finite(),
        near::off(
            tempo::beats_at(segs, tempo::time_at(segs, beats)).val(),
            beats.val(),
            0x400_0000 * scale::step() + course::brief_count(segs) * (0x800 * scale::step()),
        ),
{
    let e = scale::step();
    let n = segs.len() as int;
    order::lemma_zero();
    scale::lemma_scale();
    assert(segment::fits(segs[0]));
    if beats.at_most(Flt::zero()) {
        lemma_nothing_back(segs);
    } else {
        let j = tempo::beat_segment(segs, beats, 0, n - 1);
        course::lemma_segment_of_beats(segs, beats);
        if j > 0 {
            assert(segs[j].beats0.val() == segs[j - 1].beats1.val());
        }
        lemma_beats_back(segs, beats, j);
    }
    let m = course::brief_count(segs);
    course::lemma_briefs_within(segs, 0, 0, n - 1);
    assert(m * (24000 * e) <= 60 * (m * (0x800 * e)) && m * (0x800 * e) >= 0)
        by (nonlinear_arith)
        requires
            m >= 0,
            e > 0,
    ;
}

/// At the start of a map no beats have passed.
#[verifier::spinoff_prover]
#[verifier::rlimit(80)]
proof fn lemma_nothing_back(segs: Seq<TempoSegment>)
    requires
        course::joined(segs),
    ensures
        tempo::beats_at(segs, Flt::zero()).finite(),
        near::off(
            60 * tempo::beats_at(segs, Flt::zero()).val(),
            0,
            3270000000 * scale::step() + course::brief_count(segs) * (24000 * scale::step()),
        ),
{
    let e = scale::step();
    let n = segs.len() as int;
    let t = Flt::zero();
    let i = tempo::segment_index(segs, t);
    let r = segs[i];
    order::lemma_zero();
    scale::lemma_scale();
    course::lemma_segment_of(segs, t);
    segment::lemma_forward(r, t);
    let w = t.val() - r.t0.val();
    lemma_start_counts(r);
    segment::lemma_lasts_before(r, 0, w);
    lemma_gain_within(r, 0, w, r.beats0.val(), r.beats_at(t).val(), 0, 15000);
    lemma_gain(segs, 0, i);
    course::lemma_beats_in_order(segs, 0, i);
    let c = course::briefs(segs, 0, i);
    let m = course::brief_count(segs);
    course::lemma_briefs_within(segs, 0, i, n - 1);
    assert(c * (24000 * e) <= m * (24000 * e)) by (nonlinear_arith)
        requires
            c <= m,
            e > 0,
    ;
}

} // verus!

//! Maps that are built by setting and ramping the tempo are of ordinary size.
use vstd::arithmetic::power2::*;
use vstd::prelude::*;

use crate::flt;
use crate::flt::near;
use crate::flt::order;
use crate::flt::{Flt, TWO52, TWO53};
use crate::inverse::area;
use crate::inverse::course;
use crate::inverse::scale;
use crate::inverse::segment;
use crate::tempo;
use crate::tempo::TempoSegment;

verus! {

/// Segments of ordinary size, of which each starts where the one before it
/// ends, and of which all end.
pub open spec fn chained(segs: Seq<TempoSegment>) -> bool {
    &&& 0 < segs.len()
    &&& tempo::in_order(segs)
    &&& segs[0].beats0.val() == 0
    &&& forall|i: int| 0 <= i < segs.len() ==> segment::fits(#[trigger] segs[i]) && course::closes(segs[i])
    &&& forall|i: int|
        1 <= i < segs.len() ==> (#[trigger] segs[i]).t0.val() == segs[i - 1].t1.val()
            && segs[i].beats0.val() == segs[i - 1].beats1.val()
    &&& forall|i: int|
        0 <= i < segs.len() ==> 60 * (#[trigger] segs[i]).beats0.val() <= 1002
            * segs[i].t0.val() + course::briefs(segs, 0, i) * (24000 * scale::step())
}

/// How many beats pass in a segment at the most.
pub proof fn lemma_beats_of(s: TempoSegment)
    requires
        segment::fits(s),
        course::closes(s),
    ensures
        60 * (s.beats1.val() - s.beats0.val()) <= 1001 * (s.t1.val() - s.t0.val()) + 24000
            * scale::step(),
{
    let p = scale::unit();
    let e = scale::step();
    let x = s.t1.val() - s.t0.val();
    let n = s.beats1.val() - s.beats0.val();
    let a = area::swept(s.bpm0.val(), s.slope().val(), x);
    segment::lemma_fits(s);
    segment::lemma_swept_range(s, x);
    assert(60 * n <= 1001 * x + 24000 * e) by (nonlinear_arith)
        requires
            60 * n * (2 * p * p) <= a + 24000 * e * (2 * p * p),
            a <= 2001 * (x * (p * p)),
            x >= 0,
            p > 0,
    {
        let q = 2 * p * p;
        assert(q > 0);
        assert(2001 * (x * (p * p)) <= (1001 * x) * q);
        assert((60 * n) * q <= (1001 * x + 24000 * e) * q);
    }
}

/// What comes after segments that all end.
#[verifier::spinoff_prover]
#[verifier::rlimit(80)]
proof fn lemma_next(segs: Seq<TempoSegment>, s: TempoSegment)
    requires
        chained(segs),
        course::briefs(segs, 0, segs.len() as int) <= 0x100_0000_0000,
        s.t0.finite(),
        s.t0.val() == segs.last().t1.val(),
        s.t0.val() <= 2048 * scale::unit(),
        s.beats0.finite(),
        s.beats0.val() == segs.last().beats1.val(),
    ensures
        0 <= s.t0.val(),
        0 <= s.beats0.val() <= 40000 * scale::unit(),
        60 * s.beats0.val() <= 1002 * s.t0.val() + course::briefs(segs, 0, segs.len() as int)
            * (24000 * scale::step()),
        tempo::in_order(segs.push(s)),
{
    let e = scale::step();
    let n = segs.len() as int;
    let l = segs.last();
    assert(l == segs[n - 1]);
    assert(segment::fits(l) && course::closes(l));
    segment::lemma_fits(l);
    lemma_beats_of(l);
    let m = course::briefs(segs, 0, n - 1);
    let c = course::briefs(segs, 0, n);
    assert((m + 1) * (24000 * e) == m * (24000 * e) + 24000 * e) by (nonlinear_arith);
    assert(c * (24000 * e) <= 1500 * scale::unit()) by (nonlinear_arith)
        requires
            c <= 0x100_0000_0000,
            scale::unit() == 0x1000_0000_0000 * e,
            e > 0,
    ;
    assert(60 * segs[n - 1].beats0.val() <= 1002 * segs[n - 1].t0.val() + m * (24000 * e));
}

#[verifier::spinoff_prover]
#[verifier::rlimit(80)]
proof fn lemma_chain(segs: Seq<TempoSegment>, s: TempoSegment)
    requires
        chained(segs),
        course::briefs(segs, 0, segs.len() as int) <= 0x100_0000_0000,
        segment::fits(s),
        course::closes(s),
        s.t0.val() == segs.last().t1.val(),
        s.beats0.val() == segs.last().beats1.val(),
    ensures
        chained(segs.push(s)),
        course::briefs(segs.push(s), 0, segs.len() as int + 1) == course::briefs(
            segs,
            0,
            segs.len() as int,
        ) + counted(s),
{
    lemma_next(segs, s);
    let t = segs.push(s);
    let n = segs.len() as int;
    course::lemma_briefs_same(t, segs, n);
    assert forall|i: int| 1 <= i < t.len() implies (#[trigger] t[i]).t0.val() == t[i
        - 1].t1.val() && t[i].beats0.val() == t[i - 1].beats1.val() by {
        if i < n {
            assert(t[i] == segs[i]);
        }
    }
    assert forall|i: int| 0 <= i < t.len() implies 60 * (#[trigger] t[i]).beats0.val() <= 1002
        * t[i].t0.val() + course::briefs(t, 0, i) * (24000 * scale::step()) by {
        course::lemma_briefs_same(t, segs, i);
        if i < n {
            assert(t[i] == segs[i]);
        }
    }
}

/// Segments that all end are followed by one that does not.
#[verifier::spinoff_prover]
#[verifier::rlimit(80)]
proof fn lemma_join(segs: Seq<TempoSegment>, t0: Flt, bpm: Flt, beats0: Flt)
    requires
        chained(segs),
        course::briefs(segs, 0, segs.len() as int) <= 0x100_0000_0000,
        t0.finite(),
        t0.val() == segs.last().t1.val(),
        t0.val() <= 2048 * scale::unit(),
        beats0.finite(),
        beats0.val() == segs.last().beats1.val(),
        bpm.finite(),
        scale::unit() <= bpm.val() <= 1000 * scale::unit(),
    ensures
        course::joined(segs.push(tempo::steady(t0, bpm, beats0))),
        course::brief_count(segs.push(tempo::steady(t0, bpm, beats0))) == course::briefs(
            segs,
            0,
            segs.len() as int,
        ),
{
    let s = tempo::steady(t0, bpm, beats0);
    lemma_next(segs, s);
    segment::lemma_endless(s);
    order::lemma_zero();
    let t = segs.push(s);
    let n = segs.len() as int;
    assert(segment::fits(s));
    course::lemma_briefs_same(t, segs, n);
    assert forall|i: int| 0 <= i < t.len() implies segment::fits(#[trigger] t[i]) by {
        if i < n {
            assert(t[i] == segs[i]);
        }
    }
    assert forall|i: int| 0 <= i < t.len() - 1 implies course::closes(#[trigger] t[i]) by {
        assert(t[i] == segs[i]);
    }
    assert forall|i: int| 1 <= i < t.len() implies (#[trigger] t[i]).t0.val() == t[i
        - 1].t1.val() && t[i].beats0.val() == t[i - 1].beats1.val() by {
        if i < n {
            assert(t[i] == segs[i]);
        }
    }
    assert forall|i: int| 0 <= i < t.len() implies 60 * (#[trigger] t[i]).beats0.val() <= 1002
        * t[i].t0.val() + course::briefs(t, 0, i) * (24000 * scale::step()) by {
        course::lemma_briefs_same(t, segs, i);
        if i < n {
            assert(t[i] == segs[i]);
        }
    }
}

/// A map with one tempo throughout is one of ordinary size.
#[verifier::spinoff_prover]
#[verifier::rlimit(80)]
pub proof fn new_map_is_joined(bpm: Flt)
    requires
        bpm.finite(),
        scale::unit() <= bpm.val() <= 1000 * scale::unit(),
    ensures
        course::joined(seq![tempo::steady(Flt::zero(), bpm, Flt::zero())]),
{
    let s = tempo::steady(Flt::zero(), bpm, Flt::zero());
    scale::lemma_scale();
    order::lemma_zero();
    segment::lemma_endless(s);
    assert(0 * (24000 * scale::step()) == 0) by (nonlinear_arith);
    assert(segment::fits(s));
}

/// A segment in which the tempo stays what it is.
pub open spec fn level(s: TempoSegment) -> bool {
    s.bpm1.finite() && s.bpm1.val() == s.bpm0.val()
}

/// Such a segment has no slope.
pub proof fn lemma_level(s: TempoSegment)
    requires
        level(s),
        s.bpm0.finite(),
        s.bpm0.val() > 0,
    ensures
        s.bpm1.minus(s.bpm0) == Flt::zero(),
        s.slope() == Flt::zero(),
        s.slope().val() == 0,
{
    order::lemma_zero();
    order::lemma_negated(s.bpm0);
    order::lemma_positive(s.bpm0);
    order::lemma_positive(s.bpm1);
    assert(s.bpm1.minus(s.bpm0) == flt::signed(false, 0));
    let l = s.t1.minus(s.t0);
    if l.finite() && Flt::zero().less(l) {
        order::lemma_zero_over(l);
    }
}

/// Adding what weighs nothing changes no value.
proof fn lemma_plus_nothing(a: Flt, z: Flt)
    requires
        a.finite(),
        z.finite(),
        a.val() > 0,
        z.val() == 0,
    ensures
        a.plus(z) == a,
{
    order::lemma_positive(a);
    flt::convert::lemma_exact(a.mag(), 1);
    assert(flt::weight(a.mag()) * 1 == flt::weight(a.mag()));
    assert(flt::signed(false, a.mag()) == a);
}

/// The tempo in such a segment is what it is at its start.
proof fn lemma_level_tempo(s: TempoSegment, u: Flt)
    requires
        level(s),
        segment::fits(s),
        u.finite(),
        0 <= u.val() - s.t0.val() <= 1024 * scale::unit(),
        s.t1 == Flt::infinity() || (s.t1.finite() && s.t0.val() <= s.t1.val() <= s.t0.val() + 1024
            * scale::unit()),
        s.t1.finite() ==> u.val() <= s.t1.val(),
    ensures
        s.bpm_at(u) == s.bpm0,
{
    segment::lemma_fits(s);
    scale::lemma_scale();
    lemma_level(s);
    order::lemma_zero();
    if s.t1.finite() && s.t1.val() != s.t0.val() {
        near::lemma_difference_near(u, s.t0, 1084);
        near::lemma_difference_near(s.t1, s.t0, 1084);
        let d = u.minus(s.t0);
        let l = s.t1.minus(s.t0);
        lemma_difference_grows(s.t0, u, s.t1);
        lemma_difference_positive(s.t1, s.t0);
        assert(near::size(d.val()) * scale::unit() <= pow2(1084) * near::size(l.val())) by (nonlinear_arith)
            requires
                0 <= d.val() <= l.val(),
                pow2(1084) == 1024 * scale::unit(),
                scale::unit() > 0,
        ;
        near::lemma_quotient_near(d, l, 1084);
        let a = d.over(l);
        assert(Flt::zero().val() * a.val() == 0) by (nonlinear_arith)
            requires
                Flt::zero().val() == 0,
        ;
        scale::lemma_bound(0, 0, 0, 0);
        assert(0 <= pow2(1084) as int * pow2(1074)) by (nonlinear_arith)
            requires
                pow2(1084) >= 0,
                pow2(1074) >= 0,
        ;
        near::lemma_product_near(Flt::zero(), a, 1084);
        lemma_plus_nothing(s.bpm0, Flt::zero().times(a));
    }
}

/// Later times are further from the start.
proof fn lemma_difference_grows(t0: Flt, a: Flt, b: Flt)
    requires
        t0.finite(),
        a.finite(),
        b.finite(),
        a.val() <= b.val(),
    ensures
        a.minus(t0).at_most(b.minus(t0)),
{
    order::lemma_negated(t0);
    order::lemma_plus_commutes(a, t0.negated());
    order::lemma_plus_commutes(b, t0.negated());
    order::sum_is_monotone(t0.negated(), a, b);
}

/// Different times lie apart.
pub proof fn lemma_difference_positive(a: Flt, b: Flt)
    requires
        a.finite(),
        b.finite(),
        b.val() < a.val(),
    ensures
        !a.minus(b).nan() ==> a.minus(b).val() > 0,
{
    order::lemma_negated(b);
    let x = a.val() - b.val();
    order::lemma_nearest_exists(x, 1);
    let m = flt::nearest(x, 1);
    flt::lemma_compare(a, b);
    if m == 0 {
        assert((flt::weight(0) + flt::weight(1)) * 1 == 1);
    } else {
        flt::lemma_weight_lt(0, m);
    }
}

/// 1 for a segment that is shorter than 2^-20 of a second, else 0.
pub open spec fn counted(s: TempoSegment) -> int {
    if course::brief(s) {
        1
    } else {
        0
    }
}

/// The segments up to a time, where the last of them ends well.
#[verifier::spinoff_prover]
#[verifier::rlimit(80)]
proof fn lemma_cut(segs: Seq<TempoSegment>, t: Flt)
    requires
        course::joined(segs),
        t.finite(),
        0 <= t.val() <= 1000 * scale::unit(),
        segment::fits(tempo::cut(segs, t).last()),
        course::closes(tempo::cut(segs, t).last()),
    ensures
        chained(tempo::cut(segs, t)),
        course::briefs(tempo::cut(segs, t), 0, tempo::cut(segs, t).len() as int)
            <= course::brief_count(segs) + counted(tempo::cut(segs, t).last()),
        tempo::cut(segs, t).last().t1 == t,
        tempo::cut(segs, t).last().beats1 == tempo::beats_at(segs, t),
{
    let i = tempo::segment_index(segs, t);
    let c = tempo::cut(segs, t);
    course::lemma_segment_of(segs, t);
    assert(c.len() == i + 1);
    assert(c.last() == c[i]);
    assert forall|j: int| 0 <= j < i implies #[trigger] c[j] == segs[j] by {}
    assert forall|j: int| 0 <= j < c.len() implies (#[trigger] c[j]).t0 == segs[j].t0
        && c[j].beats0 == segs[j].beats0 by {}
    assert forall|j: int| 0 <= j < c.len() implies segment::fits(#[trigger] c[j]) && course::closes(c[j]) by {
        if j < i {
            assert(segment::fits(segs[j]) && course::closes(segs[j]));
        }
    }
    assert forall|j: int| 1 <= j < c.len() implies (#[trigger] c[j]).t0.val() == c[j
        - 1].t1.val() && c[j].beats0.val() == c[j - 1].beats1.val() by {
        assert(segs[j].t0.val() == segs[j - 1].t1.val());
        assert(c[j - 1] == segs[j - 1]);
    }
    assert forall|j: int| 0 <= j < c.len() implies 60 * (#[trigger] c[j]).beats0.val() <= 1002
        * c[j].t0.val() + course::briefs(c, 0, j) * (24000 * scale::step()) by {
        course::lemma_briefs_same(c, segs, j);
        assert(60 * segs[j].beats0.val() <= 1002 * segs[j].t0.val() + course::briefs(segs, 0, j) * (
        24000 * scale::step()));
    }
    course::lemma_briefs_same(c, segs, i);
    course::lemma_briefs_within(segs, 0, i, segs.len() - 1);
    assert forall|j: int, k: int| 0 <= j <= k < c.len() implies (#[trigger] c[j]).t0.val() <= (
    #[trigger] c[k]).t0.val() by {
        assert(segs[j].t0.val() <= segs[k].t0.val());
    }
}

/// A segment that is cut where its tempo stays what it is.
#[verifier::spinoff_prover]
#[verifier::rlimit(80)]
proof fn lemma_cut_level(s: TempoSegment, t: Flt, end: TempoSegment)
    requires
        level(s),
        segment::fits(s),
        s.t1 == Flt::infinity() || course::closes(s),
        t.finite(),
        s.t0.val() <= t.val() <= 1000 * scale::unit(),
        s.t1.finite() ==> t.val() <= s.t1.val(),
        end == (TempoSegment { t1: t, bpm1: s.bpm_at(t), beats1: s.beats_at(t), ..s }),
    ensures
        segment::fits(end),
        course::closes(end),
{
    let x = t.val() - s.t0.val();
    segment::lemma_fits(s);
    order::lemma_zero();
    lemma_level(s);
    lemma_level_tempo(s, t);
    lemma_level(end);
    segment::lemma_steady_lasts(s, x);
    segment::lemma_forward(s, t);
    segment::lemma_counts_more(s, x, end.beats1.val(), end.beats1.val(), 15000, 9000);
    assert(segment::counts(end, x, end.beats1.val(), 24000));
    segment::lemma_steady_lasts(end, x);
}

/// A rise of the tempo over a length of time, and the slope that comes of it.
#[verifier::spinoff_prover]
#[verifier::rlimit(80)]
proof fn lemma_rise(rise: Flt, l: Flt)
    requires
        rise.finite(),
        l.finite(),
        near::off(rise.val(), 0, 1002 * scale::unit()),
        0 < l.val(),
        near::size(rise.val()) * scale::unit() <= pow2(2090) * l.val(),
        rise.val() == 0 || l.val() <= 2001 * near::size(rise.val()),
    ensures
        ({
            let k = rise.over(l).val();
            let j = near::size(k);
            &&& rise.over(l).finite()
            &&& near::off(k * l.val(), rise.val() * scale::unit(), 4 * scale::step() * scale::unit())
            &&& rise.val() == 0 ==> k == 0
            &&& rise.val() != 0 && 2 * l.val() <= 2001 * near::size(rise.val()) ==> scale::unit()
                <= 1001 * j
            &&& near::off(k * l.val(), 0, 1003 * scale::unit() * scale::unit())
        }),
{
    let p = scale::unit();
    let e = scale::step();
    let a = rise.val();
    let d = l.val();
    let z = near::size(a);
    scale::lemma_scale();
    lemma2_to64();
    lemma2_to64_rest();
    lemma_pow2_adds(60, 1014);
    lemma_pow2_strictly_increases(24, 1014);
    let big = pow2(1014) as int;
    if a != 0 {
        assert(pow2(60) * d <= z * p) by (nonlinear_arith)
            requires
                d <= 2001 * z,
                p == pow2(60) * big,
                big >= 2001,
                z >= 0,
                pow2(60) > 0,
        {
            assert(pow2(60) * d <= pow2(60) * (2001 * z));
            assert(2001 * z <= big * z);
            assert(pow2(60) * (2001 * z) <= pow2(60) * (big * z));
            assert(pow2(60) * (big * z) == z * p);
        }
    }
    near::lemma_quotient_relative(rise, l);
    let k = rise.over(l).val();
    let kd = k * d;
    let ap = a * p;
    let zp = z * p;
    assert(zp == near::size(ap)) by (nonlinear_arith)
        requires
            z == near::size(a),
            zp == z * p,
            ap == a * p,
            p > 0,
    ;
    let pp = p * p;
    let ep = e * p;
    assert(zp <= 1002 * pp) by (nonlinear_arith)
        requires
            z <= 1002 * p,
            zp == z * p,
            pp == p * p,
            p > 0,
    ;
    assert(pp == 0x1000_0000_0000 * ep) by (nonlinear_arith)
        requires
            pp == p * p,
            p == 0x1000_0000_0000 * e,
            ep == e * p,
    ;
    assert(ep > 0) by (nonlinear_arith)
        requires
            e > 0,
            p > 0,
            ep == e * p,
    ;
    assert(4 * scale::step() * scale::unit() == 4 * ep) by (nonlinear_arith)
        requires
            ep == e * p,
            e == scale::step(),
            p == scale::unit(),
    ;
    assert(1003 * scale::unit() * scale::unit() == 1003 * pp) by (nonlinear_arith)
        requires
            pp == p * p,
            p == scale::unit(),
    ;
    assert(near::off(kd, ap, 4 * ep));
    if a != 0 && 2 * d <= 2001 * z {
        let j = near::size(k);
        assert(near::size(kd) == j * d) by (nonlinear_arith)
            requires
                kd == k * d,
                j == near::size(k),
                d > 0,
        ;
        assert(p <= 1001 * j) by (nonlinear_arith)
            requires
                TWO52 * (j * d) >= TWO52 * zp - zp,
                zp == z * p,
                2 * d <= 2001 * z,
                d > 0,
                p > 0,
                TWO52 == 0x10_0000_0000_0000,
        {
            assert(1000000 * (j * d) >= 999999 * zp);
            assert(2001 * zp >= (2 * d) * p);
            assert(2001 * 1000000 * (j * d) >= 999999 * (2 * (d * p)));
            assert(d * (2001 * 1000000 * j) >= d * (1999998 * p));
            assert(2001 * 1000000 * j >= 1999998 * p);
        }
    }
}

/// A slope over a length of time is bounded.
proof fn lemma_slope_bounded(k: int, l: int, p: int)
    requires
        p == scale::unit(),
        near::off(k * l, 0, 1003 * p * p),
        scale::least() <= 16 * l,
    ensures
        near::size(k) <= pow2(1970),
{
    let j = near::size(k);
    let top = pow2(1970) as int;
    let low = pow2(190) as int;
    lemma2_to64();
    lemma_pow2_pos(190);
    lemma_pow2_pos(1970);
    lemma_pow2_adds(4, 190);
    lemma_pow2_adds(1970, 190);
    lemma_pow2_adds(1074, 1074);
    lemma_pow2_adds(12, 2148);
    lemma_pow2_pos(2148);
    if j > top {
        assert(false) by (nonlinear_arith)
            requires
                near::off(k * l, 0, 1003 * p * p),
                j == near::size(k),
                j > top,
                l >= low,
                low > 0,
                top > 0,
                top * low == 4096 * (p * p),
                p * p > 0,
        {
            assert(j * l == near::size(k * l));
            assert(j * l >= top * l);
            assert(top * l >= top * low);
        }
    }
}

/// Over a length of time that is not too short a rise has a slope.
proof fn lemma_long_enough(z: int, l: int)
    requires
        0 <= z <= 1002 * scale::unit(),
        scale::least() <= 16 * l,
    ensures
        z * scale::unit() <= pow2(2090) * l,
{
    let p = scale::unit();
    let low = pow2(190) as int;
    lemma2_to64();
    lemma_pow2_pos(1074);
    lemma_pow2_pos(2090);
    lemma_pow2_adds(4, 190);
    lemma_pow2_adds(2090, 190);
    lemma_pow2_adds(1074, 1074);
    lemma_pow2_adds(12, 2148);
    lemma_pow2_strictly_increases(2160, 2280);
    assert(z * p <= pow2(2090) * l) by (nonlinear_arith)
        requires
            0 <= z <= 1002 * p,
            l >= low,
            pow2(2090) * low == pow2(2280),
            pow2(2160) == 4096 * (p * p),
            pow2(2160) <= pow2(2280),
            pow2(2090) > 0,
            p > 0,
    {
        assert(z * p <= (1002 * p) * p);
        assert(pow2(2090) * l >= pow2(2090) * low);
    }
}

/// The tempo moves by a thousandth or more in a second, if at all; by a
/// four-hundredth where it takes less than 2^-20 of a second for it.
pub open spec fn moves(d: int, change: int) -> bool {
    ||| change == 0
    ||| d <= 400 * near::size(change)
    ||| d <= 1000 * near::size(change) && scale::unit() <= 0x10_0000 * d
}

/// A ramp of ordinary size, and how it is laid.
pub open spec fn lays(r: TempoSegment, d: Flt) -> bool {
    &&& r.t0.finite()
    &&& 0 <= r.t0.val() <= 1000 * scale::unit()
    &&& d.finite()
    &&& scale::least() <= d.val() <= 1000 * scale::unit()
    &&& r.t1 == r.t0.plus(d)
    &&& r.bpm0.finite()
    &&& scale::unit() <= r.bpm0.val() <= 1000 * scale::unit()
    &&& r.bpm1.finite()
    &&& scale::unit() <= r.bpm1.val() <= 1000 * scale::unit()
    &&& moves(d.val(), r.bpm1.val() - r.bpm0.val())
}

/// How a ramp is laid: when it ends, and the slope its beats are counted with.
#[verifier::spinoff_prover]
#[verifier::rlimit(80)]
proof fn lemma_counted_slope(r: TempoSegment, d: Flt)
    requires
        lays(r, d),
    ensures
        ({
            let rise = r.bpm1.minus(r.bpm0);
            let k = rise.over(d);
            let p = scale::unit();
            let e = scale::step();
            let change = r.bpm1.val() - r.bpm0.val();
            &&& r.t1.finite()
            &&& near::off(r.t1.val() - r.t0.val(), d.val(), 2 * e)
            &&& rise.finite()
            &&& near::off(rise.val(), change, e)
            &&& change == 0 ==> rise.val() == 0
            &&& 999999 * near::size(change) <= 1000000 * near::size(rise.val())
            &&& k.finite()
            &&& near::off(k.val() * d.val(), rise.val() * p, 4 * e * p)
            &&& near::size(k.val()) <= pow2(1970)
            &&& k.val() == 0 || p <= 1001 * near::size(k.val())
        }),
{
    let p = scale::unit();
    scale::lemma_scale();
    order::lemma_zero();
    near::lemma_sum_near(r.t0, d, 1085);
    near::lemma_difference_near(r.bpm1, r.bpm0, 1084);
    lemma_pow2_strictly_increases(1084, 2000);
    near::lemma_difference_relative(r.bpm1, r.bpm0);
    let rise = r.bpm1.minus(r.bpm0);
    let z = near::size(rise.val());
    let change = near::size(r.bpm1.val() - r.bpm0.val());
    lemma2_to64();
    lemma2_to64_rest();
    lemma_pow2_strictly_increases(63, 194);
    if r.bpm1.val() == r.bpm0.val() {
        lemma_level(r);
    } else {
        assert(d.val() <= 1000 * change);
        assert(TWO53 * z >= TWO53 * change - change - TWO53);
        assert(999999 * change <= 1000000 * z);
    }
    lemma_long_enough(z, d.val());
    lemma_rise(rise, d);
    lemma_slope_bounded(rise.over(d).val(), d.val(), p);
}

/// How a ramp is laid: its length and its slope.
#[verifier::spinoff_prover]
#[verifier::rlimit(80)]
proof fn lemma_laid(r: TempoSegment, d: Flt)
    requires
        lays(r, d),
        r.t1.val() != r.t0.val(),
    ensures
        ({
            let rise = r.bpm1.minus(r.bpm0);
            let l = r.t1.minus(r.t0);
            let g = r.slope();
            let p = scale::unit();
            let e = scale::step();
            let x = r.t1.val() - r.t0.val();
            &&& 0 < x
            &&& l.finite()
            &&& near::off(l.val(), x, e)
            &&& TWO53 * near::size(l.val() - x) <= x + TWO53
            &&& scale::least() <= 16 * l.val()
            &&& r.bpm1.val() != r.bpm0.val() ==> 2 * l.val() <= 2001 * near::size(rise.val())
            &&& near::size(rise.val()) * p <= pow2(2090) * l.val()
            &&& g.finite()
            &&& near::off(g.val() * l.val(), rise.val() * p, 4 * e * p)
            &&& near::size(g.val()) <= pow2(1970)
            &&& g.val() == 0 || p <= 1001 * near::size(g.val())
            &&& r.bpm1.val() == r.bpm0.val() <==> g.val() == 0
        }),
{
    let p = scale::unit();
    let e = scale::step();
    scale::lemma_scale();
    order::lemma_zero();
    lemma_counted_slope(r, d);
    lemma2_to64();
    lemma2_to64_rest();
    lemma_pow2_strictly_increases(63, 194);
    near::lemma_sum_moves(r.t0, d);
    near::lemma_difference_near(r.t1, r.t0, 1084);
    lemma_pow2_strictly_increases(1084, 2000);
    near::lemma_difference_relative(r.t1, r.t0);
    let rise = r.bpm1.minus(r.bpm0);
    let z = near::size(rise.val());
    let l = r.t1.minus(r.t0);
    let x = r.t1.val() - r.t0.val();
    let change = near::size(r.bpm1.val() - r.bpm0.val());
    assert(scale::least() <= 2 * x);
    assert(1000000 * l.val() <= 1000001 * x && x <= 2 * l.val());
    if r.bpm1.val() == r.bpm0.val() {
        lemma_level(r);
    } else if d.val() <= 400 * change {
        assert(2 * l.val() <= 2001 * z);
    } else {
        assert(d.val() >= 0x100_0000 * e);
        assert(2 * l.val() <= 2001 * z);
    }
    lemma_long_enough(z, l.val());
    lemma_rise(rise, l);
    assert(Flt::zero().less(l));
    assert(r.slope() == rise.over(l));
    lemma_slope_bounded(rise.over(l).val(), l.val(), p);
}

/// The area under a ramp, as it is counted and as it is.
#[verifier::spinoff_prover]
#[verifier::rlimit(80)]
proof fn lemma_laid_area(
    p: int,
    e: int,
    b: int,
    rise: int,
    k: int,
    d: int,
    g: int,
    l: int,
    x: int,
)
    requires
        p == scale::unit(),
        e == scale::step(),
        p == 0x1000_0000_0000 * e,
        e > 0,
        p <= b <= 1000 * p,
        near::off(b + rise, 0, 1001 * p),
        b + rise >= 0,
        0 <= d <= 1000 * p,
        near::off(x, d, 2 * e),
        near::off(l, x, e),
        x >= 0,
        near::off(k * d, rise * p, 4 * e * p),
        near::off(g * l, rise * p, 4 * e * p),
        near::off(g * x, 0, 1001 * (p * p)),
    ensures
        near::off(area::swept(b, k, d), area::swept(b, g, x), 7000 * e * (2 * p * p)),
{
    let pp = p * p;
    let ep = e * p;
    let epp = e * pp;
    let w = 2 * (b * p) + rise * p;
    assert(0 <= w <= 2001 * pp) by (nonlinear_arith)
        requires
            w == 2 * (b * p) + rise * p,
            p <= b <= 1000 * p,
            0 <= b + rise <= 1001 * p,
            p > 0,
            pp == p * p,
    {
        assert(w == (b + (b + rise)) * p);
        assert(0 <= b + (b + rise) <= 2001 * p);
    }
    let u = k * d - rise * p;
    let v = g * l - rise * p;
    assert(4 * e * p == 4 * ep) by (nonlinear_arith)
        requires
            ep == e * p,
    ;
    assert(near::off(d * u, 0, 4000 * epp)) by (nonlinear_arith)
        requires
            near::off(u, 0, 4 * ep),
            0 <= d <= 1000 * p,
            ep == e * p,
            epp == e * pp,
            pp == p * p,
            e > 0,
            p > 0,
    {
        assert(near::off(d * u, 0, d * (4 * ep)));
        assert(d * (4 * ep) <= (1000 * p) * (4 * ep));
        assert((1000 * p) * (4 * ep) == 4000 * epp);
    }
    assert(near::off(x * v, 0, 4004 * epp)) by (nonlinear_arith)
        requires
            near::off(v, 0, 4 * ep),
            0 <= x <= 1001 * p,
            ep == e * p,
            epp == e * pp,
            pp == p * p,
            e > 0,
            p > 0,
    {
        assert(near::off(x * v, 0, x * (4 * ep)));
        assert(x * (4 * ep) <= (1001 * p) * (4 * ep));
        assert((1001 * p) * (4 * ep) == 4004 * epp);
    }
    let gx = g * x;
    assert(near::off(gx * (x - l), 0, 1001 * epp)) by (nonlinear_arith)
        requires
            near::off(gx, 0, 1001 * pp),
            near::off(l, x, e),
            epp == e * pp,
            e > 0,
            pp == p * p,
            p > 0,
    {
        assert(near::off(gx * (x - l), 0, (1001 * pp) * e));
    }
    assert(near::off((d - x) * w, 0, 4002 * epp)) by (nonlinear_arith)
        requires
            near::off(x, d, 2 * e),
            0 <= w <= 2001 * pp,
            epp == e * pp,
            e > 0,
    {
        assert(near::off((d - x) * w, 0, (2 * e) * w));
        assert((2 * e) * w <= (2 * e) * (2001 * pp));
    }
    assert(area::swept(b, k, d) == d * w + d * u) by (nonlinear_arith)
        requires
            area::swept(b, k, d) == d * (2 * b * p + k * d),
            w == 2 * (b * p) + rise * p,
            u == k * d - rise * p,
    ;
    assert(area::swept(b, g, x) == x * w + x * v + gx * (x - l)) by (nonlinear_arith)
        requires
            area::swept(b, g, x) == x * (2 * b * p + g * x),
            w == 2 * (b * p) + rise * p,
            v == g * l - rise * p,
            gx == g * x,
    {
        assert(x * v == g * x * l - x * (rise * p));
        assert(gx * (x - l) == g * x * x - g * x * l);
    }
    assert(d * w - x * w == (d - x) * w) by (nonlinear_arith);
    assert(7000 * e * (2 * p * p) == 14000 * epp) by (nonlinear_arith)
        requires
            epp == e * pp,
            pp == p * p,
    ;
}

/// A ramp that was cut no more than `n` times: it reaches its target, and its
/// slope is not the least that counts.
#[verifier::opaque]
pub open spec fn whole(s: TempoSegment, n: int) -> bool {
    let l = s.t1.minus(s.t0);
    let rise = s.bpm1.minus(s.bpm0);
    &&& 0 <= n <= 11
    &&& segment::fits(s)
    &&& s.t1.finite()
    &&& l.finite()
    &&& 0 < l.val() <= 1001 * scale::unit()
    &&& segment::lasts(s, s.t1.val() - s.t0.val())
    &&& s.bpm1.finite()
    &&& scale::unit() - n * (64 * scale::step()) <= s.bpm1.val()
    &&& s.bpm1.val() <= 1000 * scale::unit() + n * (64 * scale::step())
    &&& near::off(
        segment::pace(s, s.t1.val() - s.t0.val()),
        s.bpm1.val() * scale::unit(),
        16 * (scale::step() * scale::unit()),
    )
    &&& l.val() <= 2001 * near::size(rise.val())
    &&& near::size(rise.val()) * scale::unit() <= pow2(2090) * l.val()
    &&& scale::unit() <= (1001 + 2 * n) * near::size(s.slope().val())
    &&& near::size(s.slope().val()) <= (1024 + 2 * n) * pow2(1960)
}

/// A ramp that was cut less often is one that was cut no more often.
pub proof fn lemma_cut_less(s: TempoSegment, n: int, m: int)
    requires
        whole(s, n),
        n <= m <= 11,
    ensures
        whole(s, m),
{
    reveal(whole);
    let e = scale::step();
    let j = near::size(s.slope().val());
    let f = pow2(1960) as int;
    scale::lemma_scale();
    assert(n * (64 * e) <= m * (64 * e) && (1001 + 2 * n) * j <= (1001 + 2 * m) * j && (1024 + 2
        * n) * f <= (1024 + 2 * m) * f) by (nonlinear_arith)
        requires
            n <= m,
            e > 0,
            j >= 0,
            f >= 0,
    ;
}

/// What holds of a ramp that was cut up to ten times.
proof fn lemma_whole(s: TempoSegment, n: int)
    requires
        whole(s, n),
        n <= 10,
    ensures
        scale::unit() - 640 * scale::step() <= s.bpm1.val() <= 1000 * scale::unit() + 640
            * scale::step(),
        scale::unit() <= 1021 * near::size(s.slope().val()),
        near::size(s.slope().val()) <= 1044 * pow2(1960),
        s.t1.finite(),
        s.t0.val() <= s.t1.val(),
{
    reveal(whole);
    let e = scale::step();
    let j = near::size(s.slope().val());
    let f = pow2(1960) as int;
    scale::lemma_scale();
    assert(n * (64 * e) <= 640 * e && (1001 + 2 * n) * j <= 1021 * j && (1024 + 2 * n) * f <= 1044
        * f) by (nonlinear_arith)
        requires
            n <= 10,
            e > 0,
            j >= 0,
            f >= 0,
    ;
}

/// The tempo at the end of a ramp is its target.
#[verifier::spinoff_prover]
#[verifier::rlimit(80)]
proof fn lemma_laid_pace(p: int, e: int, b: int, t: int, rise: int, g: int, l: int, x: int)
    requires
        p == scale::unit(),
        p == 0x1000_0000_0000 * e,
        e > 0,
        p <= t <= 1000 * p,
        p <= b <= 1000 * p,
        0 <= x,
        0 <= l,
        near::off(rise, t - b, e),
        TWO53 * near::size(l - x) <= x + TWO53,
        near::off(g * l, rise * p, 4 * e * p),
        near::size(g) <= pow2(1970),
    ensures
        near::off(b * p + g * x, t * p, 16 * (e * p)),
        1023 * (p * p) <= 1024 * (b * p + g * x),
        b * p + g * x <= 1001 * (p * p),
{
    let pp = p * p;
    let ep = e * p;
    assert(near::off(rise * p, t * p - b * p, ep)) by (nonlinear_arith)
        requires
            near::off(rise, t - b, e),
            ep == e * p,
            p > 0,
    {
        let g0 = rise - (t - b);
        assert(near::off(g0 * p, 0, e * p));
        assert(g0 * p == rise * p - (t * p - b * p));
    }
    assert(4 * e * p == 4 * ep) by (nonlinear_arith)
        requires
            ep == e * p,
    ;
    assert(g * x == g * l + g * (x - l)) by (nonlinear_arith);
    assert(pp <= t * p <= 1000 * pp) by (nonlinear_arith)
        requires
            p <= t <= 1000 * p,
            p > 0,
            pp == p * p,
    ;
    assert(pp == 0x1000_0000_0000 * ep) by (nonlinear_arith)
        requires
            pp == p * p,
            p == 0x1000_0000_0000 * e,
            ep == e * p,
    ;
    assert(ep > 0) by (nonlinear_arith)
        requires
            e > 0,
            p > 0,
            ep == e * p,
    ;
    assert(pp <= b * p <= 1000 * pp) by (nonlinear_arith)
        requires
            p <= b <= 1000 * p,
            p > 0,
            pp == p * p,
    ;
    let j = near::size(g);
    let h = near::size(l - x);
    lemma_pow2_strictly_increases(1970, 1974);
    segment::lemma_steep_floor(j);
    assert(j * l == near::size(g * l)) by (nonlinear_arith)
        requires
            j == near::size(g),
            l >= 0,
    ;
    assert(j * l <= 1001 * pp);
    assert(j * h == near::size(g * (x - l))) by (nonlinear_arith)
        requires
            j == near::size(g),
            h == near::size(l - x),
    ;
    assert((TWO53 - 1) * (j * h) <= j * l + TWO53 * j) by (nonlinear_arith)
        requires
            TWO53 * h <= x + TWO53,
            x <= l + h,
            j >= 0,
    {
        assert(j * (TWO53 * h) <= j * (l + h + TWO53));
    }
}

/// A ramp of ordinary size ends well.
#[verifier::spinoff_prover]
#[verifier::rlimit(80)]
proof fn lemma_ramp_closes(r: TempoSegment, d: Flt)
    requires
        lays(r, d),
        r.beats0.finite(),
        0 <= r.beats0.val() <= 40000 * scale::unit(),
        r.beats1 == r.beats0.plus(
            tempo::area(r.bpm0, r.bpm1.minus(r.bpm0).over(d), d),
        ),
    ensures
        segment::fits(r),
        course::closes(r),
        r.t1.val() <= 2048 * scale::unit(),
        level(r) || whole(r, 0) || r.t1.val() == r.t0.val(),
{
    let p = scale::unit();
    let e = scale::step();
    let pp = p * p;
    let b = r.bpm0.val();
    let rise = r.bpm1.minus(r.bpm0);
    let k = rise.over(d);
    let kv = k.val();
    let dv = d.val();
    let l = r.t1.minus(r.t0);
    let g = r.slope();
    let x = r.t1.val() - r.t0.val();
    scale::lemma_scale();
    order::lemma_zero();
    lemma_counted_slope(r, d);
    lemma_pow2_strictly_increases(1970, 1974);
    lemma_pow2_strictly_increases(1970, 2000);
    if x == 0 {
        lemma_no_length(r);
        segment::lemma_steady_lasts(r, 0);
    } else {
        lemma_laid(r, d);
        assert(segment::fits(r));
        lemma_laid_pace(p, e, b, r.bpm1.val(), rise.val(), g.val(), l.val(), x);
        assert(segment::lasts(r, x));
    }
    lemma_laid_pace(p, e, b, r.bpm1.val(), rise.val(), kv, dv, dv);
    assert(pp <= b * p <= 1000 * pp) by (nonlinear_arith)
        requires
            p <= b <= 1000 * p,
            p > 0,
            pp == p * p,
    ;
    assert(1024 * p * p == 1024 * pp) by (nonlinear_arith)
        requires
            pp == p * p,
    ;
    assert(area::halves(k) && near::size(kv) <= pow2(2000)) by {
        lemma2_to64();
        lemma2_to64_rest();
        lemma_pow2_adds(53, 1021);
        lemma_pow2_strictly_increases(20, 1021);
        let big = pow2(1021) as int;
        assert(1024 * TWO53 <= TWO53 * big) by (nonlinear_arith)
            requires
                big >= 1024,
                TWO53 > 0,
        ;
    }
    area::lemma_area(r.bpm0, k, d);
    area::lemma_area_grows(r.bpm0, k, d);
    let q = tempo::area(r.bpm0, k, d);
    order::sum_never_shrinks(r.beats0, q);
    let a = area::swept(b, kv, dv);
    assert(q.val() <= 0x6000 * p) by (nonlinear_arith)
        requires
            60 * q.val() * (2 * p * p) <= a + 8960 * e * (2 * p * p),
            a == dv * (2 * b * p + kv * dv),
            b * p <= 1000 * pp,
            b * p + kv * dv <= 1001 * pp,
            0 <= dv <= 1000 * p,
            pp == p * p,
            p == 0x1000_0000_0000 * e,
            e > 0,
    {
        let v = 2 * b * p + kv * dv;
        assert(v <= 2001 * pp) by {
            assert(v == b * p + (b * p + kv * dv));
        }
        assert(dv * v <= dv * (2001 * pp));
        assert(dv * (2001 * pp) <= (1000 * p) * (2001 * pp));
        assert(8960 * e <= p);
        assert(8960 * e * (2 * p * p) <= p * (2 * pp));
        assert(pp > 0);
        assert(120 * q.val() * pp <= (2001002 * p) * pp);
    }
    near::lemma_sum_near(r.beats0, q, 1090);
    if x == 0 {
        assert(near::off(a, area::swept(b, 0, 0), 7000 * e * (2 * p * p))) by (nonlinear_arith)
            requires
                a == dv * (2 * b * p + kv * dv),
                area::swept(b, 0, 0) == 0 * (2 * b * p + 0 * 0),
                0 <= b * p <= 1000 * pp,
                0 <= b * p + kv * dv <= 1001 * pp,
                0 <= dv <= 2 * e,
                pp == p * p,
                e > 0,
        {
            let v = 2 * b * p + kv * dv;
            assert(v == b * p + (b * p + kv * dv));
            assert(0 <= dv * v <= (2 * e) * (2001 * pp));
            assert(7000 * e * (2 * p * p) == 14000 * (e * pp));
            assert(e * pp >= 0);
        }
    } else {
        lemma_laid_area(p, e, b, rise.val(), kv, dv, g.val(), l.val(), x);
    }
    let n = r.beats1.val() - r.beats0.val();
    let w = 2 * p * p;
    assert(segment::counts(r, x, r.beats1.val(), 24000)) by {
        let ew = e * w;
        let ag = area::swept(b, g.val(), x);
        assert(near::off(60 * n * w, 60 * q.val() * w, 3840 * ew)) by (nonlinear_arith)
            requires
                near::off(n, q.val(), 64 * e),
                ew == e * w,
                w == 2 * p * p,
                p > 0,
        {
            assert(w > 0);
            let h = n - q.val();
            assert(near::off(h * w, 0, 64 * ew));
            assert(60 * n * w - 60 * q.val() * w == 60 * (h * w));
        }
        assert(8960 * e * w == 8960 * ew && 7000 * e * w == 7000 * ew && 24000 * e * w == 24000
            * ew) by (nonlinear_arith)
            requires
                ew == e * w,
        ;
        assert(ew >= 0) by (nonlinear_arith)
            requires
                ew == e * w,
                w == 2 * p * p,
                e > 0,
                p > 0,
        ;
    }
    if x != 0 && !level(r) {
        lemma2_to64();
        lemma_pow2_adds(10, 1960);
        assert(0 * (64 * e) == 0) by (nonlinear_arith);
        reveal(whole);
    }
}

/// A segment without length has no slope.
proof fn lemma_no_length(s: TempoSegment)
    requires
        s.t0.finite(),
        s.t1.finite(),
        s.t0.val() == s.t1.val(),
    ensures
        s.slope() == Flt::zero(),
        s.slope().val() == 0,
{
    order::lemma_zero();
    order::lemma_negated(s.t0);
    order::lemma_zero_rounds(1);
    assert(s.t1.minus(s.t0).val() == 0);
}

/// The tempo where a ramp is cut, as it is worked out.
#[verifier::spinoff_prover]
#[verifier::rlimit(80)]
proof fn lemma_tempo_at_cut(
    p: int,
    e: int,
    rise: int,
    k: int,
    l: int,
    d: int,
    a: int,
    g: int,
    u: int,
)
    requires
        e > 0,
        p > 0,
        l > 0,
        0 <= d <= l,
        512 * u == e,
        near::off(rise, 0, 1002 * p),
        near::off(k * l, rise * p, 4 * e * p),
        near::off(a * l, d * p, u * l),
        near::off(g * p, rise * a, e * p),
    ensures
        near::off(g * p, k * d, 7 * (e * p)),
{
    let ep = e * p;
    let al = a * l - d * p;
    let kl = k * l - rise * p;
    assert(near::off(rise * al, 0, 1002 * p * (u * l))) by (nonlinear_arith)
        requires
            near::off(al, 0, u * l),
            near::off(rise, 0, 1002 * p),
            u >= 0,
            l > 0,
            p > 0,
    {
        assert(u * l >= 0);
        assert(near::off(rise * al, 0, (1002 * p) * (u * l)));
    }
    assert(1002 * p * (u * l) <= 2 * (ep * l)) by (nonlinear_arith)
        requires
            512 * u == e,
            ep == e * p,
            p > 0,
            l > 0,
            e > 0,
    {
        assert(ep * l == 512 * (p * (u * l)));
        assert(p * (u * l) >= 0);
    }
    assert(near::off(kl * d, 0, 4 * (ep * l))) by (nonlinear_arith)
        requires
            near::off(kl, 0, 4 * e * p),
            0 <= d <= l,
            ep == e * p,
            e > 0,
            p > 0,
    {
        assert(near::off(kl * d, 0, (4 * ep) * d));
        assert((4 * ep) * d <= (4 * ep) * l);
    }
    assert(rise * al == rise * (a * l) - rise * (d * p)) by (nonlinear_arith)
        requires
            al == a * l - d * p,
    ;
    assert(kl * d == (k * l) * d - (rise * p) * d) by (nonlinear_arith)
        requires
            kl == k * l - rise * p,
    ;
    assert(rise * (d * p) == (rise * p) * d) by (nonlinear_arith);
    assert(rise * (a * l) == rise * a * l) by (nonlinear_arith);
    assert((k * l) * d == k * d * l) by (nonlinear_arith);
    assert(near::off(rise * a, k * d, 6 * ep)) by (nonlinear_arith)
        requires
            near::off(rise * a * l - k * d * l, 0, 6 * (ep * l)),
            l > 0,
    {
        assert((rise * a) * l <= (k * d + 6 * ep) * l);
        assert((k * d - 6 * ep) * l <= (rise * a) * l);
    }
    assert(e * p == ep);
}

/// At this time of a ramp, its tempo has moved by 2^-30 or more.
pub open spec fn has_moved(s: TempoSegment, t: Flt) -> bool {
    scale::unit() * scale::unit() <= 0x4000_0000 * (near::size(s.slope().val()) * (t.val()
        - s.t0.val()))
}

/// The slope of a ramp that is cut is what it was, but for rounding.
#[verifier::spinoff_prover]
#[verifier::rlimit(80)]
proof fn lemma_slope_at_cut(s: TempoSegment, t: Flt, n: int)
    requires
        whole(s, n),
        n <= 10,
        t.finite(),
        s.t0.val() < t.val() <= s.t1.val(),
        has_moved(s, t),
    ensures
        ({
            let m = s.bpm_at(t);
            let d = t.minus(s.t0);
            let h = m.minus(s.bpm0);
            let k = h.over(d);
            let p = scale::unit();
            let e = scale::step();
            &&& d.finite()
            &&& near::off(d.val(), t.val() - s.t0.val(), e)
            &&& k.finite()
            &&& near::off(k.val() * d.val(), s.slope().val() * d.val(), 13 * (e * p))
            &&& 0 < d.val()
            &&& 8192 * (e * p) <= near::size(s.slope().val()) * d.val()
            &&& near::size(s.slope().val() * (d.val() - (t.val() - s.t0.val()))) <= 2 * (e * p)
            &&& d.val() <= s.t1.minus(s.t0).val()
            &&& m.finite()
            &&& near::off(h.val(), m.val() - s.bpm0.val(), e)
            &&& near::off(k.val() * d.val(), h.val() * p, 4 * (e * p))
            &&& d.val() <= 2001 * near::size(h.val())
            &&& near::size(h.val()) * p <= pow2(2090) * d.val()
        }),
{
    let p = scale::unit();
    let e = scale::step();
    let b = s.bpm0.val();
    let x = t.val() - s.t0.val();
    let y = s.t1.val() - s.t0.val();
    let l = s.t1.minus(s.t0);
    let d = t.minus(s.t0);
    let rise = s.bpm1.minus(s.bpm0);
    let k = s.slope();
    let kv = k.val();
    let dv = d.val();
    let pp = p * p;
    let ep = e * p;
    reveal(whole);
    scale::lemma_scale();
    lemma_whole(s, n);
    segment::lemma_fits(s);
    order::lemma_zero();
    near::lemma_difference_near(t, s.t0, 1084);
    near::lemma_difference_near(s.t1, s.t0, 1084);
    lemma_difference_grows(s.t0, t, s.t1);
    near::lemma_difference_near(s.bpm1, s.bpm0, 1084);
    lemma_rise(rise, l);
    assert(k == rise.over(l));
    assert(near::size(dv) * p <= pow2(1075) * near::size(l.val())) by (nonlinear_arith)
        requires
            0 <= dv <= l.val(),
            pow2(1075) == 2 * p,
            p > 0,
    ;
    near::lemma_quotient_near(d, l, 1075);
    let a = d.over(l);
    let av = a.val();
    let u = pow2(1021) as int;
    assert(0 <= av <= p + u) by (nonlinear_arith)
        requires
            near::off(av * l.val(), dv * p, u * l.val()),
            av >= 0,
            0 <= dv <= l.val(),
            l.val() > 0,
            p > 0,
    {
        assert(av * l.val() <= (p + u) * l.val());
    }
    assert(near::off(rise.val() * av, 0, 1024 * p * p)) by (nonlinear_arith)
        requires
            near::off(rise.val(), 0, 1000 * p),
            0 <= av <= p + u,
            512 * u == e,
            p == 0x1000_0000_0000 * e,
            e > 0,
    {
        assert(near::off(rise.val() * av, 0, (1000 * p) * av));
        assert((1000 * p) * av <= (1000 * p) * (p + u));
        assert((1000 * p) * (p + u) <= 1024 * p * p);
    }
    near::lemma_product_near(rise, a, 1084);
    let g = rise.times(a);
    lemma_tempo_at_cut(p, e, rise.val(), kv, l.val(), dv, av, g.val(), u);
    assert(pp == 0x1000_0000_0000 * ep) by (nonlinear_arith)
        requires
            pp == p * p,
            p == 0x1000_0000_0000 * e,
            ep == e * p,
    ;
    assert(ep > 0) by (nonlinear_arith)
        requires
            e > 0,
            p > 0,
            ep == e * p,
    ;
    segment::lemma_lasts_before(s, x, y);
    segment::lemma_place_rounds(s, t);
    assert(near::off(kv * (dv - x), 0, 2 * ep));
    assert(kv * dv == kv * x + kv * (dv - x)) by (nonlinear_arith);
    assert(near::off(b + g.val(), 0, 1024 * p)) by (nonlinear_arith)
        requires
            near::off(g.val() * p, kv * dv, 7 * ep),
            0 <= 1024 * (b * p + kv * dv) + pp,
            b * p + kv * dv <= 1002 * pp,
            pp == p * p,
            pp == 0x1000_0000_0000 * ep,
            ep > 0,
            p > 0,
    {
        assert((b + g.val()) * p == b * p + g.val() * p);
        assert((b + g.val()) * p <= (1024 * p) * p);
        assert((-(1024 * p)) * p <= (b + g.val()) * p);
    }
    assert(near::off(g.val(), 0, 1001 * p)) by (nonlinear_arith)
        requires
            near::off(g.val() * p, kv * dv, 7 * ep),
            near::off(rise.val(), 0, 1000 * p),
            near::off(kv * l.val(), rise.val() * p, 4 * e * p),
            0 <= dv <= l.val(),
            ep == e * p,
            p == 0x1000_0000_0000 * e,
            e > 0,
    {
        assert(near::off(kv * l.val(), 0, 1000 * p * p + 4 * ep));
        assert(near::size(kv) * dv <= near::size(kv) * l.val());
        assert(near::size(kv) * l.val() == near::size(kv * l.val()));
        assert(near::size(kv) * dv == near::size(kv * dv));
        assert(near::off(g.val() * p, 0, 1000 * p * p + 11 * ep));
        assert(near::off(g.val() * p, 0, (1001 * p) * p));
    }
    near::lemma_sum_near(s.bpm0, g, 1084);
    let m = s.bpm0.plus(g);
    assert(s.bpm_at(t) == m);
    near::lemma_difference_near(m, s.bpm0, 1084);
    let h = m.minus(s.bpm0);
    assert(near::off(h.val() * p, kv * dv, 9 * ep)) by (nonlinear_arith)
        requires
            near::off(h.val(), g.val(), 2 * e),
            near::off(g.val() * p, kv * dv, 7 * ep),
            ep == e * p,
            p > 0,
    {
        let z = h.val() - g.val();
        assert(near::off(z * p, 0, 2 * ep));
        assert(z * p == h.val() * p - g.val() * p);
    }
    let j = near::size(kv);
    let z = near::size(h.val());
    assert(j * dv == near::size(kv * dv)) by (nonlinear_arith)
        requires
            j == near::size(kv),
            dv >= 0,
    ;
    assert(z * p == near::size(h.val() * p)) by (nonlinear_arith)
        requires
            z == near::size(h.val()),
            p > 0,
    ;
    let jd = j * dv;
    assert(j * x == near::size(kv * x)) by (nonlinear_arith)
        requires
            j == near::size(kv),
            x >= 0,
    ;
    assert(8192 * ep <= jd);
    assert(0 < dv) by (nonlinear_arith)
        requires
            j * dv > 0,
            dv >= 0,
    ;
    assert(dv <= 1023 * z) by (nonlinear_arith)
        requires
            z * p >= jd - 9 * ep,
            jd == j * dv,
            8192 * ep <= jd,
            p <= 1021 * j,
            dv >= 0,
            p > 0,
    {
        assert(8192 * (z * p) >= 8183 * jd);
        assert(1021 * jd >= p * dv) by {
            assert((1021 * j) * dv >= p * dv);
        }
        assert(8192 * 1021 * (z * p) >= 8183 * (p * dv));
        assert((8192 * 1021 * z) * p >= (8183 * dv) * p);
        assert(8192 * 1021 * z >= 8183 * dv);
    }
    assert(z * p <= pow2(2090) * dv) by {
        lemma2_to64();
        lemma_pow2_adds(1, 1974);
        lemma_pow2_strictly_increases(1975, 2090);
        assert(z * p <= pow2(2090) * dv) by (nonlinear_arith)
            requires
                z * p <= jd + 9 * ep,
                jd == j * dv,
                8192 * ep <= jd,
                ep > 0,
                2 * j <= pow2(2090),
                dv > 0,
        {
            assert(z * p <= 2 * jd);
            assert((2 * j) * dv <= pow2(2090) * dv);
        }
    }
    lemma_rise(h, d);
    assert(4 * e * p == 4 * ep) by (nonlinear_arith)
        requires
            ep == e * p,
    ;
}

/// How much the slope of a ramp turns where it is cut.
#[verifier::spinoff_prover]
#[verifier::rlimit(80)]
proof fn lemma_slope_turns(s: TempoSegment, t: Flt, end: TempoSegment, n: int)
    requires
        whole(s, n),
        n <= 10,
        t.finite(),
        s.t0.val() < t.val() <= s.t1.val(),
        has_moved(s, t),
        end == (TempoSegment { t1: t, bpm1: s.bpm_at(t), beats1: end.beats1, ..s }),
    ensures
        ({
            let c = end.slope().val() - s.slope().val();
            &&& end.slope() == s.bpm_at(t).minus(s.bpm0).over(t.minus(s.t0))
            &&& end.slope().finite()
            &&& 8192 * near::size(c) <= 13 * near::size(s.slope().val())
            &&& near::off(c * (t.val() - s.t0.val()), 0, 14 * (scale::step() * scale::unit()))
        }),
{
    let p = scale::unit();
    let e = scale::step();
    let x = t.val() - s.t0.val();
    let kv = s.slope().val();
    scale::lemma_scale();
    order::lemma_zero();
    lemma_slope_at_cut(s, t, n);
    let d = t.minus(s.t0);
    let dv = d.val();
    let gv = end.slope().val();
    assert(Flt::zero().less(d));
    let c = gv - kv;
    let ep = e * p;
    assert(near::off(c * dv, 0, 13 * ep)) by (nonlinear_arith)
        requires
            near::off(gv * dv, kv * dv, 13 * ep),
            c == gv - kv,
    ;
    let j = near::size(kv);
    let m = near::size(c);
    assert(8192 * m <= 13 * j) by (nonlinear_arith)
        requires
            near::off(c * dv, 0, 13 * ep),
            8192 * ep <= j * dv,
            m == near::size(c),
            dv > 0,
    {
        assert(m * dv == near::size(c * dv));
        assert((8192 * m) * dv <= (13 * j) * dv);
    }
    assert(near::off(c * x, 0, 14 * ep)) by (nonlinear_arith)
        requires
            near::off(c * dv, 0, 13 * ep),
            near::size(kv * (dv - x)) <= 2 * ep,
            8192 * m <= 13 * j,
            m == near::size(c),
            j == near::size(kv),
    {
        assert(c * x == c * dv - c * (dv - x));
        let h = near::size(dv - x);
        assert(m * h == near::size(c * (dv - x)));
        assert(j * h == near::size(kv * (dv - x)));
        assert((8192 * m) * h <= (13 * j) * h);
    }
}

/// A ramp that is cut ends well.
#[verifier::spinoff_prover]
#[verifier::rlimit(80)]
proof fn lemma_cut_whole(s: TempoSegment, t: Flt, end: TempoSegment, n: int)
    requires
        whole(s, n),
        n <= 10,
        t.finite(),
        s.t0.val() <= t.val() <= s.t1.val(),
        t.val() == s.t0.val() || has_moved(s, t),
        end == (TempoSegment { t1: t, bpm1: s.bpm_at(t), beats1: s.beats_at(t), ..s }),
    ensures
        segment::fits(end),
        course::closes(end),
{
    let p = scale::unit();
    let e = scale::step();
    let b = s.bpm0.val();
    let x = t.val() - s.t0.val();
    let y = s.t1.val() - s.t0.val();
    let kv = s.slope().val();
    let pp = p * p;
    reveal(whole);
    scale::lemma_scale();
    segment::lemma_fits(s);
    order::lemma_zero();
    segment::lemma_lasts_before(s, x, y);
    segment::lemma_forward(s, t);
    segment::lemma_counts_more(s, x, end.beats1.val(), end.beats1.val(), 15000, 9000);
    if x == 0 {
        lemma_no_length(end);
        assert(segment::fits(end));
        segment::lemma_steady_lasts(end, 0);
        assert(area::swept(b, kv, 0) == area::swept(b, 0, 0)) by (nonlinear_arith)
            requires
                area::swept(b, kv, 0) == 0 * (2 * b * p + kv * 0),
                area::swept(b, 0, 0) == 0 * (2 * b * p + 0 * 0),
        ;
    } else {
        lemma_slope_turns(s, t, end, n);
        lemma_whole(s, n);
        near::lemma_difference_near(s.t1, s.t0, 1084);
        let gv = end.slope().val();
        let c = gv - kv;
        let ep = e * p;
        lemma2_to64();
        lemma2_to64_rest();
        lemma_pow2_adds(11, 1960);
        lemma_pow2_strictly_increases(1971, 1974);
        assert(segment::fits(end));
        assert(gv * x == kv * x + c * x) by (nonlinear_arith)
            requires
                c == gv - kv,
        ;
        lemma_pace_between(s, x, n);
        assert(pp == 0x1000_0000_0000 * ep) by (nonlinear_arith)
            requires
                pp == p * p,
                p == 0x1000_0000_0000 * e,
                ep == e * p,
        ;
        assert(ep > 0) by (nonlinear_arith)
            requires
                e > 0,
                p > 0,
                ep == e * p,
        ;
        assert(n * (64 * ep) <= 640 * ep) by (nonlinear_arith)
            requires
                n <= 10,
                ep > 0,
        ;
        assert(segment::lasts(end, x));
        lemma_counts_at_cut(s, end, x, c);
    }
}

/// On its way a ramp has a tempo between that at its start and its target.
proof fn lemma_pace_between(s: TempoSegment, x: int, n: int)
    requires
        whole(s, n),
        0 <= x <= s.t1.val() - s.t0.val(),
    ensures
        ({
            let pp = scale::unit() * scale::unit();
            let ep = scale::step() * scale::unit();
            &&& pp - n * (64 * ep) - 16 * ep <= segment::pace(s, x)
            &&& segment::pace(s, x) <= 1000 * pp + n * (64 * ep) + 16 * ep
        }),
{
    let p = scale::unit();
    let e = scale::step();
    let k = s.slope().val();
    let b = s.bpm0.val();
    let t = s.bpm1.val();
    let y = s.t1.val() - s.t0.val();
    let pp = p * p;
    let ep = e * p;
    let g = n * (64 * e);
    reveal(whole);
    segment::lemma_fits(s);
    assert(g * p == n * (64 * ep)) by (nonlinear_arith)
        requires
            g == n * (64 * e),
            ep == e * p,
    ;
    assert(pp <= b * p <= 1000 * pp) by (nonlinear_arith)
        requires
            p <= b <= 1000 * p,
            p > 0,
            pp == p * p,
    ;
    assert(pp - g * p <= t * p <= 1000 * pp + g * p) by (nonlinear_arith)
        requires
            p - g <= t <= 1000 * p + g,
            p > 0,
            pp == p * p,
    ;
    assert(ep >= 0 && n * (64 * ep) >= 0) by (nonlinear_arith)
        requires
            e > 0,
            p > 0,
            ep == e * p,
            n >= 0,
    ;
    if k >= 0 {
        assert(0 <= k * x <= k * y) by (nonlinear_arith)
            requires
                k >= 0,
                0 <= x <= y,
        ;
    } else {
        assert(k * y <= k * x <= 0) by (nonlinear_arith)
            requires
                k < 0,
                0 <= x <= y,
        ;
    }
}

/// A ramp that is cut is a ramp still: one that was cut once more.
#[verifier::spinoff_prover]
#[verifier::rlimit(80)]
pub proof fn cut_ramp_is_a_ramp(s: TempoSegment, t: Flt, end: TempoSegment, n: int)
    requires
        whole(s, n),
        n <= 10,
        t.finite(),
        s.t0.val() < t.val() <= s.t1.val(),
        has_moved(s, t),
        end == (TempoSegment { t1: t, bpm1: s.bpm_at(t), beats1: s.beats_at(t), ..s }),
    ensures
        whole(end, n + 1),
{
    let p = scale::unit();
    let e = scale::step();
    let pp = p * p;
    let ep = e * p;
    let b = s.bpm0.val();
    let x = t.val() - s.t0.val();
    let kv = s.slope().val();
    let gv = end.slope().val();
    let c = gv - kv;
    let d = t.minus(s.t0);
    let dv = d.val();
    let h = s.bpm_at(t).minus(s.bpm0).val();
    let m = s.bpm_at(t).val();
    let j = near::size(kv);
    let u = near::size(c);
    let w = near::size(gv);
    let f = pow2(1960) as int;
    let a = 1001 + 2 * n;
    reveal(whole);
    scale::lemma_scale();
    segment::lemma_fits(s);
    lemma_cut_whole(s, t, end, n);
    lemma_slope_turns(s, t, end, n);
    lemma_slope_at_cut(s, t, n);
    lemma_pace_between(s, x, n);
    lemma_whole(s, n);
    assert(p <= (a + 2) * w) by (nonlinear_arith)
        requires
            p <= a * j,
            a <= 1021,
            8192 * u <= 13 * j,
            w >= j - u,
            a >= 0,
            u >= 0,
    {
        assert((a + 2) * w >= (a + 2) * (j - u));
        assert((a + 2) * (j - u) == a * j + 2 * j - (a + 2) * u);
        assert((a + 2) * u <= 1023 * u);
    }
    assert((1024 + 2 * (n + 1)) * f == (1024 + 2 * n) * f + 2 * f) by (nonlinear_arith);
    assert(w <= (1024 + 2 * (n + 1)) * f);
    assert(ep > 0) by (nonlinear_arith)
        requires
            e > 0,
            p > 0,
            ep == e * p,
    ;
    let z = near::size(dv - x);
    assert(j * z == near::size(kv * (dv - x)) && w * z == near::size(gv * (dv - x)))
        by (nonlinear_arith)
        requires
            j == near::size(kv),
            w == near::size(gv),
            z == near::size(dv - x),
    ;
    assert(w * z <= 3 * ep) by (nonlinear_arith)
        requires
            w <= j + u,
            8192 * u <= 13 * j,
            j * z <= 2 * ep,
            z >= 0,
            ep > 0,
    {
        assert(w * z <= (j + u) * z);
        assert((8192 * u) * z <= (13 * j) * z);
    }
    assert(gv * x == gv * dv - gv * (dv - x)) by (nonlinear_arith);
    assert(near::off(h * p, m * p - b * p, ep)) by (nonlinear_arith)
        requires
            near::off(h, m - b, e),
            ep == e * p,
            p > 0,
    {
        let q = h - (m - b);
        assert(near::off(q * p, 0, e * p));
        assert(q * p == h * p - (m * p - b * p));
    }
    assert(gv * x == kv * x + c * x) by (nonlinear_arith)
        requires
            c == gv - kv,
    ;
    assert(near::off(segment::pace(end, x), m * p, 8 * ep));
    let g = n * (64 * e);
    assert((n + 1) * (64 * e) == g + 64 * e) by (nonlinear_arith)
        requires
            g == n * (64 * e),
    ;
    assert(g * p == n * (64 * ep)) by (nonlinear_arith)
        requires
            g == n * (64 * e),
            ep == e * p,
    ;
    assert(p - g - 64 * e <= m <= 1000 * p + g + 64 * e) by (nonlinear_arith)
        requires
            pp - g * p - 38 * ep <= m * p <= 1000 * pp + g * p + 38 * ep,
            pp == p * p,
            ep == e * p,
            e > 0,
            p > 0,
    {
        assert((p - g - 38 * e) * p <= m * p);
        assert(m * p <= (1000 * p + g + 38 * e) * p);
    }
}

/// The beats up to the cut, under the slope that the ramp has now.
#[verifier::spinoff_prover]
#[verifier::rlimit(80)]
proof fn lemma_counts_at_cut(s: TempoSegment, end: TempoSegment, x: int, c: int)
    requires
        segment::fits(s),
        end.bpm0 == s.bpm0,
        end.beats0 == s.beats0,
        0 <= x <= 1002 * scale::unit(),
        c == end.slope().val() - s.slope().val(),
        near::off(c * x, 0, 14 * (scale::step() * scale::unit())),
        segment::counts(s, x, end.beats1.val(), 15000),
    ensures
        segment::counts(end, x, end.beats1.val(), 24000),
{
    let p = scale::unit();
    let e = scale::step();
    let b = s.bpm0.val();
    let k = s.slope().val();
    let g = end.slope().val();
    let w = 2 * p * p;
    let ew = e * w;
    let cx = c * x;
    segment::lemma_fits(s);
    assert(area::swept(b, g, x) - area::swept(b, k, x) == x * cx) by (nonlinear_arith)
        requires
            area::swept(b, g, x) == x * (2 * b * p + g * x),
            area::swept(b, k, x) == x * (2 * b * p + k * x),
            c == g - k,
            cx == c * x,
    ;
    assert(near::off(x * cx, 0, 7014 * ew)) by (nonlinear_arith)
        requires
            near::off(cx, 0, 14 * (e * p)),
            0 <= x <= 1002 * p,
            ew == e * w,
            w == 2 * p * p,
            e > 0,
            p > 0,
    {
        assert(near::off(x * cx, 0, x * (14 * (e * p))));
        assert(x * (14 * (e * p)) <= (1002 * p) * (14 * (e * p)));
        assert((1002 * p) * (14 * (e * p)) == 7014 * ew);
    }
    assert(15000 * e * w == 15000 * ew && 24000 * e * w == 24000 * ew) by (nonlinear_arith)
        requires
            ew == e * w,
    ;
    assert(ew >= 0) by (nonlinear_arith)
        requires
            ew == e * w,
            w == 2 * p * p,
            e > 0,
            p > 0,
    ;
}

/// The segment of a time can be cut there: its tempo stays what it is, or it is
/// a ramp that was cut no more than ten times. A ramp is cut where it starts,
/// or when its tempo has moved by 2^-30 or more.
pub open spec fn may_cut(segs: Seq<TempoSegment>, t: Flt) -> bool {
    let s = segs[tempo::segment_index(segs, t)];
    level(s) || (whole(s, 10) && (t.val() == s.t0.val() || has_moved(s, t)))
}

/// What a segment is that is cut.
#[verifier::spinoff_prover]
#[verifier::rlimit(80)]
proof fn lemma_cut_end(segs: Seq<TempoSegment>, t: Flt)
    requires
        course::joined(segs),
        t.finite(),
        0 <= t.val() <= 1000 * scale::unit(),
    ensures
        ({
            let s = segs[tempo::segment_index(segs, t)];
            &&& segment::fits(s)
            &&& s.t1 == Flt::infinity() || course::closes(s)
            &&& s.t0.val() <= t.val()
            &&& s.t1.finite() ==> t.val() <= s.t1.val()
            &&& tempo::cut(segs, t).last() == (TempoSegment {
                t1: t,
                bpm1: s.bpm_at(t),
                beats1: s.beats_at(t),
                ..s
            })
        }),
{
    let i = tempo::segment_index(segs, t);
    course::lemma_segment_of(segs, t);
    if i < segs.len() - 1 {
        assert(course::closes(segs[i]));
    } else {
        assert(segs[i] == segs.last());
        assert(!Flt::infinity().finite());
    }
}

proof fn lemma_may_cut(segs: Seq<TempoSegment>, t: Flt)
    requires
        course::joined(segs),
        t.finite(),
        0 <= t.val() <= 1000 * scale::unit(),
        may_cut(segs, t),
    ensures
        segment::fits(tempo::cut(segs, t).last()),
        course::closes(tempo::cut(segs, t).last()),
{
    let s = segs[tempo::segment_index(segs, t)];
    lemma_cut_end(segs, t);
    lemma_cut_segment(s, t, tempo::cut(segs, t).last());
}

/// A segment that can be cut ends well.
#[verifier::spinoff_prover]
#[verifier::rlimit(80)]
proof fn lemma_cut_segment(s: TempoSegment, t: Flt, end: TempoSegment)
    requires
        segment::fits(s),
        s.t1 == Flt::infinity() || course::closes(s),
        t.finite(),
        s.t0.val() <= t.val() <= 1000 * scale::unit(),
        s.t1.finite() ==> t.val() <= s.t1.val(),
        level(s) || (whole(s, 10) && (t.val() == s.t0.val() || has_moved(s, t))),
        end == (TempoSegment { t1: t, bpm1: s.bpm_at(t), beats1: s.beats_at(t), ..s }),
    ensures
        segment::fits(end),
        course::closes(end),
{
    if level(s) {
        lemma_cut_level(s, t, end);
    } else {
        lemma_whole(s, 10);
        lemma_cut_whole(s, t, end, 10);
    }
}

/// At the very start of a segment no beats of it have passed.
#[verifier::spinoff_prover]
#[verifier::rlimit(80)]
pub proof fn lemma_nothing_passed(s: TempoSegment, t: Flt)
    requires
        segment::fits(s),
        t.finite(),
        t.val() == s.t0.val(),
    ensures
        s.beats_at(t).val() == s.beats0.val(),
{
    let p = scale::unit();
    let k = s.slope();
    let dt = t.minus(s.t0).larger(Flt::zero());
    scale::lemma_scale();
    segment::lemma_fits(s);
    order::lemma_zero();
    order::lemma_sixty();
    order::lemma_negated(s.t0);
    order::lemma_zero_rounds(1);
    flt::lemma_compare(dt, dt);
    assert(t.minus(s.t0).val() == 0);
    assert(dt.val() == 0 && dt.finite());
    let none = pow2(1084) as int * pow2(1074);
    assert(none >= 0) by (nonlinear_arith)
        requires
            none == pow2(1084) as int * pow2(1074),
    ;
    assert(s.bpm0.val() * dt.val() == 0) by (nonlinear_arith)
        requires
            dt.val() == 0,
    ;
    near::lemma_product_near(s.bpm0, dt, 1084);
    let x1 = s.bpm0.times(dt);
    area::lemma_halves(k);
    let hk = Flt::half().times(k);
    assert(hk.val() * dt.val() == 0) by (nonlinear_arith)
        requires
            dt.val() == 0,
    ;
    near::lemma_product_near(hk, dt, 1084);
    let x2 = hk.times(dt);
    assert(x2.val() * dt.val() == 0) by (nonlinear_arith)
        requires
            dt.val() == 0,
    ;
    near::lemma_product_near(x2, dt, 1084);
    let x3 = x2.times(dt);
    let x4 = x1.plus(x3);
    flt::lemma_compare(x4, x4);
    assert(x4.val() == 0 && x4.finite());
    near::lemma_quotient_relative(x4, Flt::sixty());
    let q = x4.over(Flt::sixty());
    assert(q.val() == 0 && q.finite());
    if s.beats0.val() > 0 {
        lemma_plus_nothing(s.beats0, q);
    } else {
        flt::lemma_compare(s.beats0.plus(q), q);
    }
}

/// A change where a segment starts, or 2^-20 of a second later than that or
/// more, leaves no segment that is shorter than 2^-20 of a second.
pub proof fn changes_far_apart_are_not_brief(segs: Seq<TempoSegment>, t: Flt)
    requires
        course::joined(segs),
        t.finite(),
        0 <= t.val() <= 1000 * scale::unit(),
        ({
            let s = segs[tempo::segment_index(segs, t)];
            t.val() == s.t0.val() || scale::unit() <= 0x10_0000 * (t.val() - s.t0.val())
        }),
    ensures
        !course::brief(tempo::cut(segs, t).last()),
{
    let s = segs[tempo::segment_index(segs, t)];
    course::lemma_segment_of(segs, t);
    if t.val() == s.t0.val() {
        lemma_nothing_passed(s, t);
    }
}

/// Setting a tempo of ordinary size makes a map of ordinary size again. It adds
/// a segment shorter than 2^-20 of a second only where it cuts one that short.
#[verifier::spinoff_prover]
#[verifier::rlimit(80)]
pub proof fn set_tempo_keeps_joined(segs: Seq<TempoSegment>, bpm: Flt, t: Flt)
    requires
        course::joined(segs),
        course::brief_count(segs) < 0x100_0000_0000,
        t.finite(),
        0 <= t.val() <= 1000 * scale::unit(),
        bpm.finite(),
        scale::unit() <= bpm.val() <= 1000 * scale::unit(),
        may_cut(segs, t),
    ensures
        course::joined(tempo::with_bpm(segs, bpm, t)),
        level(tempo::with_bpm(segs, bpm, t).last()),
        course::brief_count(tempo::with_bpm(segs, bpm, t)) <= course::brief_count(segs) + counted(
            tempo::cut(segs, t).last(),
        ),
{
    order::lemma_zero();
    scale::lemma_scale();
    assert(t.larger(Flt::zero()) == t);
    assert(tempo::positive(bpm) == bpm);
    lemma_may_cut(segs, t);
    lemma_cut(segs, t);
    course::lemma_segment_of(segs, t);
    segment::lemma_forward(segs[tempo::segment_index(segs, t)], t);
    lemma_join(tempo::cut(segs, t), t, bpm, tempo::beats_at(segs, t));
}

/// Ramping to a tempo of ordinary size makes a map of ordinary size again. The
/// ramp may be as short as 2^-880 of a second, and moves the tempo by so much
/// that its slope counts, if at all. Where it is so short that the time does
/// not change, it has no length.
#[verifier::spinoff_prover]
#[verifier::rlimit(80)]
pub proof fn ramp_keeps_joined(segs: Seq<TempoSegment>, bpm: Flt, dur: Flt, t: Flt)
    requires
        course::joined(segs),
        course::brief_count(segs) + 1 < 0x100_0000_0000,
        t.finite(),
        0 <= t.val() <= 1000 * scale::unit(),
        bpm.finite(),
        scale::unit() <= bpm.val() <= 1000 * scale::unit(),
        dur.finite(),
        scale::least() <= dur.val() <= 1000 * scale::unit(),
        may_cut(segs, t),
        tempo::bpm_at(segs, t).finite(),
        scale::unit() <= tempo::bpm_at(segs, t).val() <= 1000 * scale::unit(),
        moves(dur.val(), bpm.val() - tempo::bpm_at(segs, t).val()),
    ensures
        ({
            let after = tempo::with_ramp(segs, bpm, dur, t);
            let ramp = after[after.len() - 2];
            &&& course::joined(after)
            &&& course::brief_count(after) <= course::brief_count(segs) + counted(
                tempo::cut(segs, t).last(),
            ) + counted(ramp)
            &&& level(after.last())
            &&& level(ramp) || whole(ramp, 10) || ramp.t1.val() == ramp.t0.val()
        }),
{
    let i = tempo::segment_index(segs, t);
    let start = tempo::bpm_at(segs, t);
    let beats0 = tempo::beats_at(segs, t);
    let k = bpm.minus(start).over(dur);
    let t1 = t.plus(dur);
    let beats1 = beats0.plus(tempo::area(start, k, dur));
    let ramp = TempoSegment { t0: t, t1, bpm0: start, bpm1: bpm, beats0, beats1 };
    let c = tempo::cut(segs, t);
    order::lemma_zero();
    scale::lemma_scale();
    assert(t.larger(Flt::zero()) == t);
    lemma_pow2_pos(194);
    assert(dur.larger(Flt::zero()) == dur);
    assert(tempo::positive(bpm) == bpm);
    lemma_may_cut(segs, t);
    lemma_cut(segs, t);
    course::lemma_segment_of(segs, t);
    segment::lemma_forward(segs[i], t);
    lemma_next(c, ramp);
    lemma_ramp_closes(ramp, dur);
    lemma_chain(c, ramp);
    let d = c.push(ramp);
    assert(d.last() == ramp);
    if whole(ramp, 0) {
        lemma_cut_less(ramp, 0, 10);
    }
    lemma_join(d, t1, bpm, beats1);
    let after = tempo::with_ramp(segs, bpm, dur, t);
    assert(after == d.push(tempo::steady(t1, bpm, beats1)));
    assert(after[after.len() - 2] == ramp);
}

/// A ramp of no length sets the tempo, and makes a map of ordinary size again.
#[verifier::spinoff_prover]
#[verifier::rlimit(80)]
pub proof fn ramp_of_no_length_keeps_joined(
    segs: Seq<TempoSegment>,
    bpm: Flt,
    dur: Flt,
    t: Flt,
)
    requires
        course::joined(segs),
        course::brief_count(segs) < 0x100_0000_0000,
        t.finite(),
        0 <= t.val() <= 1000 * scale::unit(),
        bpm.finite(),
        scale::unit() <= bpm.val() <= 1000 * scale::unit(),
        dur.at_most(Flt::zero()),
        may_cut(segs, t),
    ensures
        tempo::with_ramp(segs, bpm, dur, t) == tempo::with_bpm(segs, bpm, t),
        course::joined(tempo::with_ramp(segs, bpm, dur, t)),
{
    order::lemma_zero();
    scale::lemma_scale();
    assert(t.larger(Flt::zero()) == t);
    assert(tempo::positive(bpm) == bpm);
    set_tempo_keeps_joined(segs, bpm, t);
}

} // verus!

//! How well a map finds the time of a beat.
use vstd::prelude::*;

use crate::flt::near;
use crate::flt::order;
use crate::flt::Flt;
use crate::inverse::area;
use crate::inverse::back;
use crate::inverse::scale;
use crate::inverse::segment;
use crate::tempo;
use crate::tempo::TempoSegment;

verus! {

/// The end of a segment is known: when it is, and how many beats have passed
/// by then.
pub open spec fn closes(s: TempoSegment) -> bool {
    &&& s.t1.finite()
    &&& s.beats1.finite()
    &&& s.beats0.val() <= s.beats1.val()
    &&& segment::lasts(s, s.t1.val() - s.t0.val())
    &&& segment::counts(s, s.t1.val() - s.t0.val(), s.beats1.val(), 24000)
}

/// A segment shorter than 2^-20 of a second, in which time or beats pass.
pub open spec fn brief(s: TempoSegment) -> bool {
    &&& 0x10_0000 * (s.t1.val() - s.t0.val()) < scale::unit()
    &&& s.t0.val() != s.t1.val() || s.beats0.val() != s.beats1.val()
}

/// How many of the segments from `i` up to `j` are that short.
pub open spec fn briefs(segs: Seq<TempoSegment>, i: int, j: int) -> int
    decreases j - i,
{
    if j <= i {
        0
    } else {
        briefs(segs, i, j - 1) + if brief(segs[j - 1]) {
            1int
        } else {
            0
        }
    }
}

/// How many segments of a map, but for the last, are that short.
pub open spec fn brief_count(segs: Seq<TempoSegment>) -> int {
    briefs(segs, 0, segs.len() - 1)
}

/// There are no more of them in a part than in the whole.
pub proof fn lemma_briefs_within(segs: Seq<TempoSegment>, i: int, j: int, n: int)
    requires
        0 <= i <= j <= n,
    ensures
        0 <= briefs(segs, i, j) <= briefs(segs, 0, n),
    decreases n,
{
    if j < n {
        lemma_briefs_within(segs, i, j, n - 1);
    } else if i < j {
        lemma_briefs_within(segs, i, j - 1, n - 1);
    } else if n > 0 {
        lemma_briefs_within(segs, n - 1, n - 1, n - 1);
    }
}

/// The same segments have as many of them.
pub proof fn lemma_briefs_same(a: Seq<TempoSegment>, b: Seq<TempoSegment>, n: int)
    requires
        forall|i: int| 0 <= i < n ==> #[trigger] a[i] == b[i],
    ensures
        briefs(a, 0, n) == briefs(b, 0, n),
    decreases n,
{
    if n > 0 {
        lemma_briefs_same(a, b, n - 1);
        assert(a[n - 1] == b[n - 1]);
    }
}

/// Segments of ordinary size, of which each starts where the one before it
/// ends, and the last goes on at one tempo. There may be any number of them,
/// and up to 2^40 that are shorter than 2^-20 of a second.
pub open spec fn joined(segs: Seq<TempoSegment>) -> bool {
    &&& 0 < segs.len()
    &&& brief_count(segs) <= 0x100_0000_0000
    &&& tempo::in_order(segs)
    &&& segs[0].beats0.val() == 0
    &&& forall|i: int| 0 <= i < segs.len() ==> segment::fits(#[trigger] segs[i])
    &&& forall|i: int| 0 <= i < segs.len() - 1 ==> closes(#[trigger] segs[i])
    &&& forall|i: int|
        1 <= i < segs.len() ==> (#[trigger] segs[i]).t0.val() == segs[i - 1].t1.val()
            && segs[i].beats0.val() == segs[i - 1].beats1.val()
    &&& forall|i: int|
        0 <= i < segs.len() ==> 60 * (#[trigger] segs[i]).beats0.val() <= 1002
            * segs[i].t0.val() + briefs(segs, 0, i) * (24000 * scale::step())
    &&& segs.last().t1 == Flt::infinity()
    &&& segs.last().beats1 == Flt::infinity()
}

/// Beats at the starts of the segments are in order.
#[verifier::spinoff_prover]
#[verifier::rlimit(80)]
pub proof fn lemma_beats_in_order(segs: Seq<TempoSegment>, i: int, j: int)
    requires
        joined(segs),
        0 <= i <= j < segs.len(),
    ensures
        segs[i].beats0.val() <= segs[j].beats0.val(),
    decreases j - i,
{
    if i < j {
        lemma_beats_in_order(segs, i, j - 1);
        assert(closes(segs[j - 1]));
        assert(segs[j].beats0.val() == segs[j - 1].beats1.val());
    }
}

/// Where next to no beats pass from one segment to another, next to no time
/// does.
#[verifier::spinoff_prover]
#[verifier::rlimit(80)]
pub proof fn lemma_gap(segs: Seq<TempoSegment>, i: int, j: int)
    requires
        joined(segs),
        0 <= i <= j < segs.len(),
        60 * (segs[j].beats0.val() - segs[i].beats0.val()) <= 39000 * scale::step(),
    ensures
        segs[j].t0.val() - segs[i].t0.val() <= briefs(segs, i, j) * (64000 * scale::step()),
    decreases j - i,
{
    if i < j {
        let s = segs[j - 1];
        let e = scale::step();
        assert(segment::fits(s));
        assert(closes(s));
        segment::lemma_fits(s);
        assert(segs[j].beats0.val() == s.beats1.val());
        assert(segs[j].t0.val() == s.t1.val());
        lemma_beats_in_order(segs, i, j - 1);
        lemma_gap(segs, i, j - 1);
        let x = s.t1.val() - s.t0.val();
        segment::lemma_no_beats(s, x, 60 * (s.beats1.val() - s.beats0.val()), 24000);
        assert(x <= 64000 * e);
        let m = briefs(segs, i, j - 1);
        assert((m + 1) * (64000 * e) == m * (64000 * e) + 64000 * e) by (nonlinear_arith);
        assert(brief(s) || x == 0);
    } else {
        assert(0 * (64000 * scale::step()) == 0) by (nonlinear_arith);
    }
}

/// What the segment of a time is to that time.
#[verifier::spinoff_prover]
#[verifier::rlimit(80)]
pub proof fn lemma_segment_of(segs: Seq<TempoSegment>, u: Flt)
    requires
        joined(segs),
        u.finite(),
        0 <= u.val() <= 1000 * scale::unit(),
    ensures
        ({
            let i = tempo::segment_index(segs, u);
            let s = segs[i];
            &&& 0 <= i < segs.len()
            &&& segment::fits(s)
            &&& 0 <= u.val() - s.t0.val()
            &&& i < segs.len() - 1 ==> u.val() < s.t1.val()
            &&& segment::lasts(s, u.val() - s.t0.val())
        }),
{
    let i = tempo::segment_index(segs, u);
    let s = segs[i];
    order::lemma_zero();
    tempo::lemma_last_started(segs, u, segs.len() as int);
    assert(segment::fits(s));
    segment::lemma_fits(s);
    assert(s.t0.val() <= u.val());
    if i < segs.len() - 1 {
        assert(closes(s));
        assert(segment::fits(segs[i + 1]));
        assert(!segs[i + 1].t0.at_most(u));
        assert(segs[i + 1].t0.val() == segs[i].t1.val());
        segment::lemma_lasts_before(s, u.val() - s.t0.val(), s.t1.val() - s.t0.val());
    } else {
        segment::lemma_endless(s);
        segment::lemma_steady_lasts(s, u.val() - s.t0.val());
    }
}

/// Beats at the ends of the segments are in order.
#[verifier::spinoff_prover]
#[verifier::rlimit(80)]
proof fn lemma_ends_in_order(segs: Seq<TempoSegment>, i: int, j: int)
    requires
        joined(segs),
        0 <= i <= j < segs.len(),
    ensures
        !segs[i].beats1.nan(),
        segs[i].beats1.val() <= segs[j].beats1.val(),
{
    let n = segs.len() as int;
    order::lemma_zero();
    if i < n - 1 {
        assert(closes(segs[i]));
    } else {
        assert(segs[i] == segs.last());
    }
    if j < n - 1 {
        assert(segs[i + 1].beats0.val() == segs[i].beats1.val());
        assert(segs[j + 1].beats0.val() == segs[j].beats1.val());
        lemma_beats_in_order(segs, i + 1, j + 1);
    } else if i < j {
        assert(segs[j] == segs.last());
        order::lemma_top(segs[i].beats1);
    }
}

/// The segment of a number of beats, where the beats at the ends are in order.
#[verifier::spinoff_prover]
#[verifier::rlimit(80)]
pub proof fn lemma_segment_of_beats(segs: Seq<TempoSegment>, beats: Flt)
    requires
        joined(segs),
        beats.finite(),
    ensures
        ({
            let j = tempo::beat_segment(segs, beats, 0, segs.len() - 1);
            &&& 0 <= j < segs.len()
            &&& j > 0 ==> segs[j - 1].beats1.val() < beats.val()
            &&& j < segs.len() - 1 ==> beats.val() <= segs[j].beats1.val()
        }),
{
    let n = segs.len() as int;
    order::lemma_zero();
    assert forall|i: int| 0 <= i < n implies !(#[trigger] segs[i]).beats1.nan() by {
        lemma_ends_in_order(segs, i, i);
    }
    assert forall|i: int, j: int| 0 <= i <= j < n implies (#[trigger] segs[i]).beats1.val() <= (
    #[trigger] segs[j]).beats1.val() by {
        lemma_ends_in_order(segs, i, j);
    }
    assert forall|i: int| 0 <= i < n - 1 implies (#[trigger] segs[i]).beats1.finite() by {
        assert(closes(segs[i]));
    }
    tempo::beat_segment_is_first(segs, beats, 0, n - 1);
}

/// The beats at a time lie before the segment of that time by next to nothing.
#[verifier::spinoff_prover]
#[verifier::rlimit(80)]
proof fn lemma_back_before(segs: Seq<TempoSegment>, u: Flt, beats: Flt, i: int, j: int)
    requires
        joined(segs),
        0 <= j < i < segs.len(),
        segment::fits(segs[i]),
        segment::lasts(segs[i], u.val() - segs[i].t0.val()),
        segment::counts(segs[i], u.val() - segs[i].t0.val(), beats.val(), 15000),
        beats.finite(),
        beats.val() >= segs[i].beats0.val(),
        beats.val() <= segs[j].beats1.val(),
    ensures
        segs[j].time_at(beats).finite(),
        near::off(
            segs[j].time_at(beats).val(),
            u.val(),
            3328000 * scale::step() + briefs(segs, j + 1, i) * (64000 * scale::step()),
        ),
{
    let e = scale::step();
    let s = segs[i];
    let r = segs[j];
    assert(segment::fits(r));
    segment::lemma_fits(r);
    assert(closes(r));
    assert(segs[j + 1].t0.val() == segs[j].t1.val());
    assert(segs[j + 1].beats0.val() == segs[j].beats1.val());
    lemma_beats_in_order(segs, j + 1, i);
    assert(beats.val() == r.beats1.val());
    lemma_gap(segs, j + 1, i);
    segment::lemma_no_beats(s, u.val() - s.t0.val(), 60 * (beats.val() - s.beats0.val()), 15000);
    back::lemma_back(r, r.t1.val() - r.t0.val(), beats, 24000);
    assert(segs[j + 1].t0.val() <= segs[i].t0.val());
}

/// They lie after it by next to nothing.
#[verifier::spinoff_prover]
#[verifier::rlimit(80)]
proof fn lemma_back_after(segs: Seq<TempoSegment>, u: Flt, beats: Flt, i: int, j: int)
    requires
        joined(segs),
        0 <= i < j < segs.len(),
        segment::fits(segs[i]),
        u.val() < segs[i].t1.val(),
        segment::lasts(segs[i], u.val() - segs[i].t0.val()),
        segment::counts(segs[i], u.val() - segs[i].t0.val(), beats.val(), 15000),
        beats.finite(),
        segs[j - 1].beats1.val() < beats.val(),
    ensures
        segs[j].time_at(beats).finite(),
        near::off(
            segs[j].time_at(beats).val(),
            u.val(),
            3328000 * scale::step() + briefs(segs, i + 1, j) * (64000 * scale::step()),
        ),
{
    let p = scale::unit();
    let e = scale::step();
    let q = 2 * p * p;
    let s = segs[i];
    let r = segs[j];
    let b = s.bpm0.val();
    let k = s.slope().val();
    let x = u.val() - s.t0.val();
    let y = s.t1.val() - s.t0.val();
    let n = beats.val() - s.beats0.val();
    let m = s.beats1.val() - s.beats0.val();
    assert(segment::fits(r));
    segment::lemma_fits(r);
    assert(closes(s));
    assert(segs[i + 1].t0.val() == segs[i].t1.val());
    assert(segs[i + 1].beats0.val() == segs[i].beats1.val());
    assert(segs[j].beats0.val() == segs[j - 1].beats1.val());
    lemma_beats_in_order(segs, i + 1, j);
    area::lemma_swept_apart(b, k, x, y, p);
    let v = segment::pace(s, x) + segment::pace(s, y);
    let ax = area::swept(b, k, x);
    let ay = area::swept(b, k, y);
    assert(q == 2 * (p * p)) by (nonlinear_arith)
        requires
            q == 2 * p * p,
    ;
    assert(1023 * ((y - x) * q) <= 1024 * (ay - ax)) by (nonlinear_arith)
        requires
            ay - ax == (y - x) * v,
            1023 * q <= 1024 * v,
            y >= x,
    ;
    assert(q > 0) by (nonlinear_arith)
        requires
            q == 2 * p * p,
            p > 0,
    ;
    assert((y - x) * q >= 0) by (nonlinear_arith)
        requires
            y >= x,
            q > 0,
    ;
    let eq = e * q;
    assert(15000 * e * q == 15000 * eq) by (nonlinear_arith)
        requires
            eq == e * q,
    ;
    assert(24000 * e * q == 24000 * eq) by (nonlinear_arith)
        requires
            eq == e * q,
    ;
    assert(60 * (n - m) <= 39000 * e) by (nonlinear_arith)
        requires
            60 * n * q <= ax + 15000 * eq,
            ay - 24000 * eq <= 60 * m * q,
            ax <= ay,
            eq == e * q,
            q > 0,
    {
        assert((60 * (n - m)) * q <= (39000 * e) * q);
    }
    assert(60 * m * q < 60 * n * q) by (nonlinear_arith)
        requires
            m < n,
            q > 0,
    ;
    assert(1023 * (y - x) <= 1024 * (39000 * e)) by (nonlinear_arith)
        requires
            1023 * ((y - x) * q) <= 1024 * (ay - ax),
            ay - ax <= 39000 * eq,
            eq == e * q,
            q > 0,
    {
        assert((1023 * (y - x)) * q <= (1024 * (39000 * e)) * q);
    }
    lemma_gap(segs, i + 1, j);
    assert(segment::counts(r, 0, r.beats0.val(), 0)) by {
        assert(area::swept(r.bpm0.val(), r.slope().val(), 0) == 0) by (nonlinear_arith)
            requires
                area::swept(r.bpm0.val(), r.slope().val(), 0) == 0 * (2 * r.bpm0.val() * p
                    + r.slope().val() * 0),
        ;
        assert(60 * (r.beats0.val() - r.beats0.val()) * q == 0) by (nonlinear_arith);
        assert(0 * e * q == 0) by (nonlinear_arith);
    }
    segment::lemma_counts_more(r, 0, r.beats0.val(), beats.val(), 0, 39000);
    assert(segment::lasts(r, 0)) by {
        let rb = r.bpm0.val();
        assert(p * p <= rb * p <= 1000 * (p * p)) by (nonlinear_arith)
            requires
                p <= rb <= 1000 * p,
                p > 0,
        ;
        assert(r.slope().val() * 0 == 0);
    }
    back::lemma_back(r, 0, beats, 39000);
    assert(segs[i + 1].t0.val() <= segs[j].t0.val());
}

/// However often the tempo was set and ramped: the time of the beats at a time
/// is that time, to within 2^-22 of a second, and 2^-28 more for each segment
/// that is shorter than 2^-20 of a second.
#[verifier::spinoff_prover]
#[verifier::rlimit(80)]
pub proof fn time_comes_back_in_map(segs: Seq<TempoSegment>, u: Flt)
    requires
        joined(segs),
        u.finite(),
        0 <= u.val() <= 1000 * scale::unit(),
    ensures
        tempo::time_at(segs, tempo::beats_at(segs, u)).finite(),
        near::off(
            tempo::time_at(segs, tempo::beats_at(segs, u)).val(),
            u.val(),
            0x40_0000 * scale::step() + brief_count(segs) * (0x1_0000 * scale::step()),
        ),
{
    let e = scale::step();
    let n = segs.len() as int;
    let i = tempo::segment_index(segs, u);
    let s = segs[i];
    lemma_segment_of(segs, u);
    segment::lemma_fits(s);
    segment::lemma_forward(s, u);
    let beats = s.beats_at(u);
    let x = u.val() - s.t0.val();
    order::lemma_zero();
    let m = brief_count(segs);
    assert forall|a: int, b: int| 0 <= a <= b <= n - 1 implies (#[trigger] briefs(segs, a, b)) * (64000
        * e) <= m * (0x1_0000 * e) by {
        let c = briefs(segs, a, b);
        lemma_briefs_within(segs, a, b, n - 1);
        assert(c * (64000 * e) <= m * (0x1_0000 * e)) by (nonlinear_arith)
            requires
                0 <= c <= m,
                e > 0,
        ;
    }
    if beats.at_most(Flt::zero()) {
        segment::lemma_no_beats(s, x, 60 * (beats.val() - s.beats0.val()), 15000);
        lemma_beats_in_order(segs, 0, i);
        lemma_gap(segs, 0, i);
        assert(briefs(segs, 0, i) * (64000 * e) <= m * (0x1_0000 * e));
    } else {
        let j = tempo::beat_segment(segs, beats, 0, n - 1);
        lemma_segment_of_beats(segs, beats);
        if j == i {
            back::lemma_back(s, x, beats, 15000);
            assert(briefs(segs, 0, 0) * (64000 * e) <= m * (0x1_0000 * e));
            assert(0 * (64000 * e) == 0) by (nonlinear_arith);
        } else if j < i {
            lemma_back_before(segs, u, beats, i, j);
            assert(briefs(segs, j + 1, i) * (64000 * e) <= m * (0x1_0000 * e));
        } else {
            lemma_back_after(segs, u, beats, i, j);
            assert(briefs(segs, i + 1, j) * (64000 * e) <= m * (0x1_0000 * e));
        }
    }
}

/// In a map of any number of segments, of which no more than 200 are shorter
/// than 2^-20 of a second, that is less than a millionth of a second.
#[verifier::spinoff_prover]
#[verifier::rlimit(80)]
pub proof fn time_comes_back_within_a_millionth(segs: Seq<TempoSegment>, u: Flt)
    requires
        joined(segs),
        brief_count(segs) <= 200,
        u.finite(),
        0 <= u.val() <= 1000 * scale::unit(),
    ensures
        tempo::time_at(segs, tempo::beats_at(segs, u)).finite(),
        1000000 * near::size(
            tempo::time_at(segs, tempo::beats_at(segs, u)).val() - u.val(),
        ) < scale::unit(),
{
    let e = scale::step();
    let n = brief_count(segs);
    scale::lemma_scale();
    time_comes_back_in_map(segs, u);
    assert(n * (0x1_0000 * e) <= 200 * (0x1_0000 * e)) by (nonlinear_arith)
        requires
            n <= 200,
            e > 0,
    ;
}

} // verus!

//! What a wait for some beats comes to in seconds.
use vstd::prelude::*;

use crate::context::{BeatWaitFuture, Ctx, WaitFuture, WaitPhase};
use crate::flt::near;
use crate::flt::order;
use crate::flt::Flt;
use crate::inverse::area;
use crate::inverse::built;
use crate::inverse::course;
use crate::inverse::forth;
use crate::inverse::scale;
use crate::inverse::segment;
use crate::tempo;
use crate::tempo::TempoSegment;
use crate::world::WorldView;

verus! {

/// Twice the area under the tempo of the first `i` segments, in cubic units.
pub open spec fn area_before(segs: Seq<TempoSegment>, i: int) -> int
    decreases i,
{
    if i <= 0 {
        0
    } else {
        let s = segs[i - 1];
        area_before(segs, i - 1) + area::swept(
            s.bpm0.val(),
            s.slope().val(),
            s.t1.val() - s.t0.val(),
        )
    }
}

proof fn lemma_beats_before(segs: Seq<TempoSegment>, i: int)
    requires
        course::joined(segs),
        0 <= i < segs.len(),
    ensures
        near::off(
            60 * segs[i].beats0.val() * (2 * scale::unit() * scale::unit()),
            area_before(segs, i),
            24000 * i * scale::step() * (2 * scale::unit() * scale::unit()),
        ),
    decreases i,
{
    let p = scale::unit();
    let e = scale::step();
    let q = 2 * p * p;
    if i == 0 {
        assert(60 * segs[i].beats0.val() * q == 0) by (nonlinear_arith)
            requires
                segs[i].beats0.val() == 0,
        ;
        assert(24000 * i * e * q == 0) by (nonlinear_arith)
            requires
                i == 0,
        ;
    } else {
        let s = segs[i - 1];
        lemma_beats_before(segs, i - 1);
        assert(course::closes(s));
        assert(segs[i].beats0.val() == s.beats1.val());
        let a = s.beats0.val();
        let b = s.beats1.val();
        assert(60 * b * q == 60 * (b - a) * q + 60 * a * q) by (nonlinear_arith);
        assert(24000 * i * e * q == 24000 * (i - 1) * e * q + 24000 * e * q) by (nonlinear_arith);
    }
}

/// Beats are the integral of the tempo: those that have passed at a time are the
/// area under the tempo up to then, over 60. The tempo of each segment goes in a
/// straight line. The error is no more than 24000 steps of a sixtieth for each
/// segment.
#[verifier::spinoff_prover]
#[verifier::rlimit(80)]
pub proof fn beats_are_the_area_under_the_tempo(segs: Seq<TempoSegment>, u: Flt)
    requires
        course::joined(segs),
        u.finite(),
        0 <= u.val() <= 1000 * scale::unit(),
    ensures
        tempo::beats_at(segs, u).finite(),
        ({
            let i = tempo::segment_index(segs, u);
            let s = segs[i];
            near::off(
                60 * tempo::beats_at(segs, u).val() * (2 * scale::unit() * scale::unit()),
                area_before(segs, i) + area::swept(
                    s.bpm0.val(),
                    s.slope().val(),
                    u.val() - s.t0.val(),
                ),
                24000 * (i + 1) * scale::step() * (2 * scale::unit() * scale::unit()),
            )
        }),
{
    let p = scale::unit();
    let e = scale::step();
    let q = 2 * p * p;
    let i = tempo::segment_index(segs, u);
    let s = segs[i];
    course::lemma_segment_of(segs, u);
    segment::lemma_fits(s);
    segment::lemma_forward(s, u);
    lemma_beats_before(segs, i);
    let a = s.beats0.val();
    let b = s.beats_at(u).val();
    assert(60 * b * q == 60 * (b - a) * q + 60 * a * q) by (nonlinear_arith);
    assert(24000 * (i + 1) * e * q == 24000 * i * e * q + 24000 * e * q) by (nonlinear_arith);
    assert(15000 * e * q <= 24000 * e * q) by (nonlinear_arith)
        requires
            e > 0,
            q == 2 * p * p,
    {
        assert(p * p >= 0);
        assert(q >= 0);
        assert(e * q >= 0);
    }
}

/// The beats at a time of ordinary size, and those some beats later.
proof fn lemma_beats_later(segs: Seq<TempoSegment>, u: Flt, n: Flt)
    requires
        course::joined(segs),
        u.finite(),
        0 <= u.val() <= 1000 * scale::unit(),
        n.finite(),
        0 < n.val(),
        tempo::beats_at(segs, u).val() + n.val() <= 65000 * scale::unit(),
    ensures
        ({
            let b = tempo::beats_at(segs, u);
            let t = b.plus(n);
            &&& b.finite()
            &&& 0 <= b.val()
            &&& t.finite()
            &&& near::off(t.val(), b.val() + n.val(), 64 * scale::step())
            &&& 0 <= t.val() <= 0x1_0000 * scale::unit()
        }),
{
    let i = tempo::segment_index(segs, u);
    scale::lemma_scale();
    order::lemma_zero();
    course::lemma_segment_of(segs, u);
    segment::lemma_forward(segs[i], u);
    let b = tempo::beats_at(segs, u);
    near::lemma_sum_near(b, n, 1090);
    order::sum_never_shrinks(b, n);
}

/// A wait for a positive number of beats is for the beat that many after the one
/// at the time from which it counts, of the tempo of its context. No other wait
/// is for a beat.
pub proof fn beat_wait_counts_its_beats(w: WorldView, ctx: Ctx, beats: Flt)
    ensures
        ({
            let f = w.beat_wait(ctx, beats);
            let k = w.ctxs[ctx.id].tempo;
            let here = tempo::beats_at(w.tempos.maps[k].segs, w.base(ctx.id));
            &&& f is Beat <==> beats.finite() && Flt::zero().less(beats)
            &&& f is Beat ==> f == WaitFuture::Beat(
                BeatWaitFuture {
                    ctx,
                    tempo_id: k,
                    target_beat: here.plus(beats),
                    phase: WaitPhase::Fresh,
                },
            )
        }),
{
    order::lemma_zero();
}

/// A wait for some beats is over when that many more beats have passed than at
/// the time from which it counts, however often the tempo was set and ramped:
/// to within 2^-17 of a beat, and 2^-33 more for each segment that is shorter
/// than 2^-20 of a second.
pub proof fn beat_wait_passes_its_beats(w: WorldView, ctx: Ctx, beats: Flt)
    requires
        ({
            let segs = w.tempos.maps[w.ctxs[ctx.id].tempo].segs;
            let base = w.base(ctx.id);
            &&& course::joined(segs)
            &&& base.finite()
            &&& 0 <= base.val() <= 1000 * scale::unit()
            &&& tempo::beats_at(segs, base).val() + beats.val() <= 65000 * scale::unit()
            &&& w.beat_wait(ctx, beats) matches WaitFuture::Beat(f) ==> tempo::time_at(
                segs,
                f.target_beat,
            ).val() <= 1000 * scale::unit()
        }),
        beats.finite(),
        0 < beats.val(),
    ensures
        ({
            let segs = w.tempos.maps[w.ctxs[ctx.id].tempo].segs;
            let f = w.beat_wait(ctx, beats);
            let due = tempo::time_at(segs, f->Beat_0.target_beat);
            &&& f is Beat
            &&& f->Beat_0.ctx == ctx
            &&& f->Beat_0.tempo_id == w.ctxs[ctx.id].tempo
            &&& f->Beat_0.phase is Fresh
            &&& near::off(
                tempo::beats_at(segs, due).val(),
                tempo::beats_at(segs, w.base(ctx.id)).val() + beats.val(),
                0x800_0000 * scale::step() + course::brief_count(segs) * (0x800 * scale::step()),
            )
        }),
{
    let segs = w.tempos.maps[w.ctxs[ctx.id].tempo].segs;
    order::lemma_zero();
    scale::lemma_scale();
    assert(!beats.at_most(Flt::zero()));
    lemma_beats_later(segs, w.base(ctx.id), beats);
    forth::beats_come_back_in_map(segs, w.beat_wait(ctx, beats)->Beat_0.target_beat);
}

/// Where the tempo is steady from some time on, `n` beats from a later time on
/// take 60 `n` seconds over the tempo.
#[verifier::spinoff_prover]
#[verifier::rlimit(80)]
proof fn lemma_steady_stretch(segs: Seq<TempoSegment>, u: Flt, n: Flt)
    requires
        course::joined(segs),
        u.finite(),
        segs.last().t0.val() <= u.val() <= 1000 * scale::unit(),
        n.finite(),
        128 * scale::step() <= n.val(),
        tempo::beats_at(segs, u).val() + n.val() <= 65000 * scale::unit(),
    ensures
        ({
            let due = tempo::time_at(segs, tempo::beats_at(segs, u).plus(n));
            &&& due.finite()
            &&& near::off(
                segs.last().bpm0.val() * (due.val() - u.val()),
                60 * n.val() * scale::unit(),
                27000000 * scale::step() * scale::unit(),
            )
        }),
{
    let p = scale::unit();
    let e = scale::step();
    let len = segs.len() as int;
    let s = segs.last();
    assert(segment::fits(segs[len - 1]));
    assert(s == segs[len - 1]);
    scale::lemma_scale();
    order::lemma_zero();
    assert(tempo::segment_index(segs, u) == len - 1);
    course::lemma_segment_of(segs, u);
    segment::lemma_fits(s);
    segment::lemma_forward(s, u);
    segment::lemma_endless(s);
    lemma_beats_later(segs, u, n);
    let b = tempo::beats_at(segs, u);
    let t = b.plus(n);
    let j = tempo::beat_segment(segs, t, 0, len - 1);
    course::lemma_segment_of_beats(segs, t);
    if j < len - 1 {
        assert(segs[j + 1].beats0.val() == segs[j].beats1.val());
        course::lemma_beats_in_order(segs, j + 1, len - 1);
    }
    assert(j == len - 1);
    forth::lemma_last_back(s, t);
    let due = s.time_at(t);
    let x = u.val() - s.t0.val();
    let y = due.val() - s.t0.val();
    lemma_stretch(s, x, y, b.val(), t.val(), n.val());
}

/// The arithmetic of that.
#[verifier::spinoff_prover]
#[verifier::rlimit(80)]
proof fn lemma_stretch(s: TempoSegment, x: int, y: int, b: int, t: int, n: int)
    requires
        segment::fits(s),
        s.slope().val() == 0,
        segment::counts(s, x, b, 15000),
        segment::counts(s, y, t, 26000000),
        near::off(t, b + n, 64 * scale::step()),
    ensures
        near::off(
            s.bpm0.val() * (y - x),
            60 * n * scale::unit(),
            27000000 * scale::step() * scale::unit(),
        ),
{
    let p = scale::unit();
    let e = scale::step();
    let q = 2 * p * p;
    let m = s.bpm0.val();
    let k = s.slope().val();
    let b0 = s.beats0.val();
    segment::lemma_fits(s);
    let sx = area::swept(m, k, x);
    let sy = area::swept(m, k, y);
    assert(sy - sx == (m * (y - x)) * (2 * p)) by (nonlinear_arith)
        requires
            sx == x * (2 * m * p + k * x),
            sy == y * (2 * m * p + k * y),
            k == 0,
    ;
    assert(60 * (t - b0) * q - 60 * (b - b0) * q == 60 * (t - b) * q) by (nonlinear_arith);
    assert(near::off(60 * (t - b) * q, 60 * n * q, 3840 * e * q)) by (nonlinear_arith)
        requires
            near::off(t, b + n, 64 * e),
            q == 2 * p * p,
            p > 0,
    {
        assert(q > 0);
        let g = t - b - n;
        assert(60 * (t - b) * q - 60 * n * q == 60 * (g * q));
        assert(near::off(g * q, 0, 64 * e * q));
    }
    let a = m * (y - x) - 60 * n * p;
    assert(near::off(a * (2 * p), 0, 27000000 * e * q)) by (nonlinear_arith)
        requires
            a == m * (y - x) - 60 * n * p,
            near::off((m * (y - x)) * (2 * p), 60 * n * q, 15000 * e * q + 26000000 * e * q + 3840
                * e * q),
            q == 2 * p * p,
            e > 0,
            p > 0,
    {
        assert(a * (2 * p) == (m * (y - x)) * (2 * p) - 60 * n * q);
        assert(e * q > 0);
    }
    assert(near::off(a, 0, 27000000 * e * p)) by (nonlinear_arith)
        requires
            near::off(a * (2 * p), 0, 27000000 * e * q),
            q == 2 * p * p,
            p > 0,
    {
        let c = 27000000 * e * p;
        assert(27000000 * e * q == c * (2 * p));
        if a > c {
            assert(a * (2 * p) > c * (2 * p));
        }
        if a < -c {
            assert(a * (2 * p) < -c * (2 * p));
        }
    }
}

/// Where the tempo goes on as it is, a wait of `n` beats ends 60 `n` seconds
/// over the tempo after the time from which it counts, whatever the tempo was
/// before: the product of the tempo and the time is off by no more than 2^-19,
/// for waits of 2^-37 of a beat or more.
pub proof fn beat_wait_at_a_steady_tempo(w: WorldView, ctx: Ctx, beats: Flt)
    requires
        ({
            let segs = w.tempos.maps[w.ctxs[ctx.id].tempo].segs;
            let base = w.base(ctx.id);
            &&& course::joined(segs)
            &&& base.finite()
            &&& segs.last().t0.val() <= base.val() <= 1000 * scale::unit()
            &&& tempo::beats_at(segs, base).val() + beats.val() <= 65000 * scale::unit()
        }),
        beats.finite(),
        128 * scale::step() <= beats.val(),
    ensures
        ({
            let segs = w.tempos.maps[w.ctxs[ctx.id].tempo].segs;
            let f = w.beat_wait(ctx, beats);
            let due = tempo::time_at(segs, f->Beat_0.target_beat);
            &&& f is Beat
            &&& f->Beat_0.tempo_id == w.ctxs[ctx.id].tempo
            &&& due.finite()
            &&& near::off(
                segs.last().bpm0.val() * (due.val() - w.base(ctx.id).val()),
                60 * beats.val() * scale::unit(),
                27000000 * scale::step() * scale::unit(),
            )
        }),
{
    let segs = w.tempos.maps[w.ctxs[ctx.id].tempo].segs;
    order::lemma_zero();
    scale::lemma_scale();
    assert(!beats.at_most(Flt::zero()));
    lemma_steady_stretch(segs, w.base(ctx.id), beats);
}

/// A wait of `n` beats that is made when the tempo has been set to `bpm` ends
/// 60 `n` seconds over `bpm` later, whatever the tempo was before.
pub proof fn beat_wait_after_a_set_tempo(w: WorldView, ctx: Ctx, bpm: Flt, beats: Flt)
    requires
        w.ctxs.contains_key(ctx.id),
        w.tempos.maps.contains_key(w.ctxs[ctx.id].tempo),
        ({
            let segs = w.tempos.maps[w.ctxs[ctx.id].tempo].segs;
            let t = w.sched.most_recent_desc_time;
            let base = w.base(ctx.id);
            &&& course::joined(segs)
            &&& course::brief_count(segs) < 0x100_0000_0000
            &&& t.finite()
            &&& 0 <= t.val()
            &&& built::may_cut(segs, t)
            &&& !w.ctxs[ctx.id].time.nan()
            &&& base.finite()
            &&& base.val() <= 1000 * scale::unit()
            &&& tempo::beats_at(tempo::with_bpm(segs, bpm, t), base).val() + beats.val() <= 65000
                * scale::unit()
        }),
        bpm.finite(),
        scale::unit() <= bpm.val() <= 1000 * scale::unit(),
        beats.finite(),
        128 * scale::step() <= beats.val(),
    ensures
        ({
            let v = w.with_bpm(ctx.id, bpm);
            let segs = v.tempos.maps[v.ctxs[ctx.id].tempo].segs;
            let f = v.beat_wait(ctx, beats);
            let due = tempo::time_at(segs, f->Beat_0.target_beat);
            &&& v.base(ctx.id) == w.base(ctx.id)
            &&& f is Beat
            &&& f->Beat_0.tempo_id == v.ctxs[ctx.id].tempo
            &&& due.finite()
            &&& near::off(
                bpm.val() * (due.val() - w.base(ctx.id).val()),
                60 * beats.val() * scale::unit(),
                27000000 * scale::step() * scale::unit(),
            )
        }),
{
    let v = w.with_bpm(ctx.id, bpm);
    let segs = w.tempos.maps[w.ctxs[ctx.id].tempo].segs;
    let t = w.sched.most_recent_desc_time;
    order::lemma_zero();
    scale::lemma_scale();
    order::larger_bounds(t, w.ctxs[ctx.id].time);
    built::set_tempo_keeps_joined(segs, bpm, t);
    let after = tempo::with_bpm(segs, bpm, t);
    assert(t.larger(Flt::zero()) == t);
    assert(tempo::positive(bpm) == bpm);
    assert(after.last() == tempo::steady(t, bpm, tempo::beats_at(segs, t)));
    assert(v.tempos.maps[v.ctxs[ctx.id].tempo].segs == after);
    assert(v.ctxs == w.ctxs);
    assert(v.sched.most_recent_desc_time == t);
    beat_wait_at_a_steady_tempo(v, ctx, beats);
}

/// A wait that is pending when the tempo is set goes on at the new tempo: the
/// beats that are left pass at `bpm` from then on.
pub proof fn beats_that_are_left_pass_at_the_new_tempo(
    segs: Seq<TempoSegment>,
    bpm: Flt,
    t: Flt,
    target: Flt,
)
    requires
        course::joined(segs),
        course::brief_count(segs) < 0x100_0000_0000,
        t.finite(),
        0 <= t.val() <= 1000 * scale::unit(),
        built::may_cut(segs, t),
        bpm.finite(),
        scale::unit() <= bpm.val() <= 1000 * scale::unit(),
        target.finite(),
        tempo::beats_at(segs, t).val() < target.val() <= 0x1_0000 * scale::unit(),
    ensures
        ({
            let due = tempo::time_at(tempo::with_bpm(segs, bpm, t), target);
            &&& due.finite()
            &&& near::off(
                bpm.val() * (due.val() - t.val()),
                60 * (target.val() - tempo::beats_at(segs, t).val()) * scale::unit(),
                27000000 * scale::step() * scale::unit(),
            )
        }),
{
    let after = tempo::with_bpm(segs, bpm, t);
    let len = after.len() as int;
    let s = after.last();
    let b = tempo::beats_at(segs, t);
    order::lemma_zero();
    scale::lemma_scale();
    built::set_tempo_keeps_joined(segs, bpm, t);
    assert(t.larger(Flt::zero()) == t);
    assert(tempo::positive(bpm) == bpm);
    assert(s == tempo::steady(t, bpm, b));
    assert(s == after[len - 1]);
    assert(segment::fits(after[len - 1]));
    segment::lemma_fits(s);
    segment::lemma_endless(s);
    let j = tempo::beat_segment(after, target, 0, len - 1);
    course::lemma_segment_of_beats(after, target);
    if j < len - 1 {
        assert(after[j + 1].beats0.val() == after[j].beats1.val());
        course::lemma_beats_in_order(after, j + 1, len - 1);
    }
    forth::lemma_last_back(s, target);
    let due = s.time_at(target);
    let p = scale::unit();
    assert(segment::counts(s, 0, b.val(), 15000)) by {
        let q = 2 * p * p;
        assert(area::swept(s.bpm0.val(), s.slope().val(), 0) == 0) by (nonlinear_arith)
            requires
                area::swept(s.bpm0.val(), s.slope().val(), 0) == 0 * (2 * s.bpm0.val() * p
                    + s.slope().val() * 0),
        ;
        assert(60 * (b.val() - b.val()) * q == 0) by (nonlinear_arith);
        let e = scale::step();
        assert(15000 * e * q >= 0) by (nonlinear_arith)
            requires
                e > 0,
                q == 2 * p * p,
        {
            assert(p * p >= 0);
            assert(e * q >= 0);
        }
    }
    lemma_stretch(s, 0, due.val() - t.val(), b.val(), target.val(), target.val() - b.val());
}

/// Setting the tempo does not change the beats that have passed so far.
pub proof fn set_tempo_keeps_the_beats_so_far(segs: Seq<TempoSegment>, bpm: Flt, t: Flt)
    requires
        course::joined(segs),
        course::brief_count(segs) < 0x100_0000_0000,
        t.finite(),
        0 <= t.val() <= 1000 * scale::unit(),
        built::may_cut(segs, t),
        bpm.finite(),
        scale::unit() <= bpm.val() <= 1000 * scale::unit(),
    ensures
        tempo::beats_at(tempo::with_bpm(segs, bpm, t), t).val() == tempo::beats_at(segs, t).val(),
        tempo::bpm_at(tempo::with_bpm(segs, bpm, t), t) == bpm,
{
    let after = tempo::with_bpm(segs, bpm, t);
    let len = after.len() as int;
    order::lemma_zero();
    scale::lemma_scale();
    built::set_tempo_keeps_joined(segs, bpm, t);
    assert(t.larger(Flt::zero()) == t);
    assert(tempo::positive(bpm) == bpm);
    assert(after[len - 1] == tempo::steady(t, bpm, tempo::beats_at(segs, t)));
    assert(segment::fits(after[len - 1]));
    assert(tempo::segment_index(after, t) == len - 1);
    built::lemma_nothing_passed(after[len - 1], t);
}

/// A ramp goes from the tempo of the moment to its target in its time, and the
/// beats that pass in it are those of the mean of both tempos. Those that had
/// passed before stay.
#[verifier::spinoff_prover]
#[verifier::rlimit(80)]
pub proof fn ramp_passes_the_mean_of_its_tempos(
    segs: Seq<TempoSegment>,
    bpm: Flt,
    dur: Flt,
    t: Flt,
)
    requires
        course::joined(segs),
        course::brief_count(segs) + 1 < 0x100_0000_0000,
        t.finite(),
        0 <= t.val() <= 1000 * scale::unit(),
        bpm.finite(),
        scale::unit() <= bpm.val() <= 1000 * scale::unit(),
        dur.finite(),
        scale::least() <= dur.val() <= 1000 * scale::unit(),
        built::may_cut(segs, t),
        tempo::bpm_at(segs, t).finite(),
        scale::unit() <= tempo::bpm_at(segs, t).val() <= 1000 * scale::unit(),
        built::moves(dur.val(), bpm.val() - tempo::bpm_at(segs, t).val()),
    ensures
        ({
            let after = tempo::with_ramp(segs, bpm, dur, t);
            let end = t.plus(dur);
            let rise = tempo::beats_at(after, end).val() - tempo::beats_at(after, t).val();
            &&& tempo::bpm_at(after, end) == bpm
            &&& t.val() < end.val() ==> tempo::beats_at(after, t).val() == tempo::beats_at(
                segs,
                t,
            ).val()
            &&& near::off(
                120 * rise * scale::unit(),
                (end.val() - t.val()) * (tempo::bpm_at(segs, t).val() + bpm.val()),
                70000 * scale::step() * scale::unit(),
            )
        }),
{
    let after = tempo::with_ramp(segs, bpm, dur, t);
    let len = after.len() as int;
    let ramp = after[len - 2];
    let last = after[len - 1];
    let end = t.plus(dur);
    let start = tempo::bpm_at(segs, t);
    let p = scale::unit();
    let e = scale::step();
    order::lemma_zero();
    scale::lemma_scale();
    vstd::arithmetic::power2::lemma_pow2_pos(194);
    built::ramp_keeps_joined(segs, bpm, dur, t);
    assert(t.larger(Flt::zero()) == t);
    assert(dur.larger(Flt::zero()) == dur);
    assert(tempo::positive(bpm) == bpm);
    order::sum_never_shrinks(t, dur);
    assert(ramp.t0 == t && ramp.t1 == end && ramp.bpm0 == start && ramp.bpm1 == bpm);
    assert(last.t0 == end && last.bpm0 == bpm && last.t1 == Flt::infinity());
    assert(segment::fits(ramp) && segment::fits(last) && course::closes(ramp));
    assert(last.beats0.val() == ramp.beats1.val());
    assert(tempo::segment_index(after, end) == len - 1);
    built::lemma_nothing_passed(last, end);
    segment::lemma_fits(ramp);
    let x = end.val() - t.val();
    let rise = ramp.beats1.val() - ramp.beats0.val();
    if t.val() < end.val() {
        assert(!last.t0.at_most(t));
        assert(tempo::last_started(after, t, len) == tempo::last_started(after, t, len - 1));
        assert(tempo::segment_index(after, t) == len - 2);
        built::lemma_nothing_passed(ramp, t);
        lemma_ramp_end(ramp);
        lemma_mean(ramp, x);
    } else {
        assert(tempo::segment_index(after, t) == len - 1);
        built::lemma_nothing_passed(last, t);
        assert(120 * 0 * p == 0) by (nonlinear_arith);
        assert(0 * (start.val() + bpm.val()) == 0) by (nonlinear_arith);
        assert(70000 * e * p >= 0) by (nonlinear_arith)
            requires
                e > 0,
                p > 0,
        ;
    }
}

/// The tempo at the end of a ramp.
proof fn lemma_ramp_end(s: TempoSegment)
    requires
        segment::fits(s),
        built::level(s) || built::whole(s, 10) || s.t1.val() == s.t0.val(),
        s.t0.val() < s.t1.val(),
        s.t1.finite(),
    ensures
        near::off(
            segment::pace(s, s.t1.val() - s.t0.val()),
            s.bpm1.val() * scale::unit(),
            16 * (scale::step() * scale::unit()),
        ),
{
    let p = scale::unit();
    let e = scale::step();
    segment::lemma_fits(s);
    reveal(built::whole);
    assert(16 * (e * p) >= 0) by (nonlinear_arith)
        requires
            e > 0,
            p > 0,
    ;
    if built::level(s) {
        built::lemma_level(s);
        let x = s.t1.val() - s.t0.val();
        let k = s.slope().val();
        assert(k * x == 0) by (nonlinear_arith)
            requires
                k == 0,
        ;
    }
}

/// The area under a straight line is that of its mean.
#[verifier::spinoff_prover]
#[verifier::rlimit(80)]
proof fn lemma_mean(s: TempoSegment, x: int)
    requires
        segment::fits(s),
        0 <= x <= 1024 * scale::unit(),
        segment::counts(s, x, s.beats1.val(), 24000),
        near::off(
            segment::pace(s, x),
            s.bpm1.val() * scale::unit(),
            16 * (scale::step() * scale::unit()),
        ),
    ensures
        near::off(
            120 * (s.beats1.val() - s.beats0.val()) * scale::unit(),
            x * (s.bpm0.val() + s.bpm1.val()),
            70000 * scale::step() * scale::unit(),
        ),
{
    let p = scale::unit();
    let e = scale::step();
    let b = s.bpm0.val();
    let c = s.bpm1.val();
    let k = s.slope().val();
    let d = s.beats1.val() - s.beats0.val();
    let q = 2 * p * p;
    segment::lemma_fits(s);
    let a = area::swept(b, k, x);
    let v = segment::pace(s, x);
    assert(a == x * (b * p + v)) by (nonlinear_arith)
        requires
            a == x * (2 * b * p + k * x),
            v == b * p + k * x,
    ;
    assert(near::off(x * v, x * (c * p), 16384 * (e * p * p))) by (nonlinear_arith)
        requires
            near::off(v, c * p, 16 * (e * p)),
            0 <= x <= 1024 * p,
            e > 0,
            p > 0,
    {
        let g = v - c * p;
        assert(x * v - x * (c * p) == x * g);
        assert(near::off(g, 0, 16 * (e * p)));
        assert(e * p > 0);
        assert(x * g <= x * (16 * (e * p)) && -(x * (16 * (e * p))) <= x * g);
        assert(x * (16 * (e * p)) <= (1024 * p) * (16 * (e * p)));
    }
    let m = x * (b + c);
    let z = 120 * d * p - m;
    assert(near::off(z * p, 0, 70000 * e * p * p)) by (nonlinear_arith)
        requires
            near::off(60 * d * q, a, 24000 * e * q),
            a == x * (b * p + v),
            near::off(x * v, x * (c * p), 16384 * (e * p * p)),
            m == x * (b + c),
            z == 120 * d * p - m,
            q == 2 * p * p,
            e > 0,
            p > 0,
    {
        assert(60 * d * q == 120 * d * p * p);
        assert(m * p == x * (b * p) + x * (c * p));
        assert(x * (b * p + v) == x * (b * p) + x * v);
        assert(z * p == 120 * d * p * p - m * p);
        assert(24000 * e * q == 48000 * (e * p * p));
        assert(70000 * e * p * p == 70000 * (e * p * p));
        assert(e * p * p > 0);
    }
    assert(near::off(z, 0, 70000 * e * p)) by (nonlinear_arith)
        requires
            near::off(z * p, 0, 70000 * e * p * p),
            p > 0,
    {
        let w = 70000 * e * p;
        assert(70000 * e * p * p == w * p);
        if z > w {
            assert(z * p > w * p);
        }
        if z < -w {
            assert(z * p < -w * p);
        }
    }
}

} // verus!

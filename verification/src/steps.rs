//! How the loops of an engine take their steps: frames one after the other,
//! each as long as the frame rate says, and sleeps in real time.
use vstd::arithmetic::power2::*;
use vstd::prelude::*;

use crate::engine;
use crate::engine::{Advance, Frames, Tick};
use crate::flt::near;
use crate::flt::order;
use crate::flt::{Flt, TWO52};
use crate::pq;
use crate::scheduler::SchedView;
use crate::world::WorldView;

verus! {

/// The same frames with so many left.
pub open spec fn with_left(f: Frames, n: usize) -> Frames {
    match f {
        Frames::Stepping { advance, .. } => Frames::Stepping { left: n, advance },
        Frames::Ticking { tick, .. } => Frames::Ticking { left: n, tick },
        _ => f,
    }
}

/// A number of frames is that many single frames, one after the other: whatever
/// tasks and waits do in between, they go in step with one frame, and when that
/// one is over, the next begins as a new run of frames with one fewer left.
pub proof fn frames_go_one_by_one(w: WorldView, fps: Flt, f: Frames, n: usize, wall: Flt)
    requires
        f is Stepping || f is Ticking,
        n > 0,
    ensures
        ({
            let (v, one) = engine::frames_next(w, fps, with_left(f, 1), wall);
            let (u, all) = engine::frames_next(w, fps, with_left(f, n), wall);
            &&& u == v
            &&& one is Over ==> all == engine::frames_start(v, fps, (n - 1) as usize, wall)
            &&& !(one is Over) ==> all == with_left(one, n)
        }),
{
}

/// A frame is a step of one second divided by the frame rate, whatever that is
/// and whatever the time.
pub proof fn frame_is_a_step(w: WorldView, fps: Flt, n: usize, wall: Flt)
    requires
        n > 0,
    ensures
        ({
            let f = engine::frames_start(w, fps, n, wall);
            &&& f is Stepping
            &&& f->Stepping_left == n
            &&& f->advance == engine::advance_start(
                engine::step_target(w, Flt::one().over(fps), wall),
            )
        }),
{
}

/// Any run of frames that begins, the first one or a later one, is a step of one
/// second divided by the frame rate from the present time.
pub proof fn every_frame_is_as_long(w: WorldView, fps: Flt, n: usize, wall: Flt)
    requires
        Flt::zero().at_most(w.sched.now(wall)),
        fps.finite(),
        Flt::zero().less(fps),
        Flt::zero().less(Flt::one().over(fps)),
        Flt::one().over(fps).finite(),
    ensures
        n == 0 ==> engine::frames_start(w, fps, n, wall) is Over,
        n > 0 ==> {
            let f = engine::frames_start(w, fps, n, wall);
            &&& f is Stepping
            &&& f->Stepping_left == n
            &&& f->advance.target == w.sched.now(wall).plus(Flt::one().over(fps))
            &&& f->advance.processed == 0
            &&& f->advance.stage is First
        },
{
    let t = w.sched.now(wall);
    let dt = Flt::one().over(fps);
    order::sum_never_shrinks(t, dt);
    order::lemma_zero();
    assert(t.at_most(t.plus(dt)));
    assert(Flt::zero().at_most(t.plus(dt)));
}

/// When a frame's tick is over and frames are left, the next one is a step of
/// one second divided by the frame rate too, with one fewer left. After the
/// last one nothing is left to do.
pub proof fn next_frame_is_as_long(w: WorldView, fps: Flt, left: usize, a: Advance, wall: Flt)
    requires
        Flt::zero().at_most(w.sched.now(wall)),
        fps.finite(),
        Flt::zero().less(fps),
        Flt::zero().less(Flt::one().over(fps)),
        Flt::one().over(fps).finite(),
        a.stage is Last,
        left > 0,
    ensures
        ({
            let (v, f) = engine::frames_next(
                w,
                fps,
                Frames::Ticking { left, tick: Tick::Settling(a) },
                wall,
            );
            &&& v == w
            &&& left == 1 ==> f is Over
            &&& left > 1 ==> {
                &&& f is Stepping
                &&& f->Stepping_left == left - 1
                &&& f->advance.target == w.sched.now(wall).plus(Flt::one().over(fps))
                &&& f->advance.processed == 0
                &&& f->advance.stage is First
            }
        }),
{
    every_frame_is_as_long(w, fps, (left - 1) as usize, wall);
}

/// So many steps of `dt` from `t`.
pub open spec fn stepped(t: Flt, dt: Flt, n: nat) -> Flt
    decreases n,
{
    if n == 0 {
        t
    } else {
        stepped(t, dt, (n - 1) as nat).plus(dt)
    }
}

/// So many goes at the frames, with nothing to drain in between.
#[verifier::opaque]
pub open spec fn gone_on(w: WorldView, fps: Flt, f: Frames, wall: Flt, k: nat) -> (
    WorldView,
    Frames,
)
    decreases k,
{
    if k == 0 {
        (w, f)
    } else {
        let (v, g) = gone_on(w, fps, f, wall, (k - 1) as nat);
        engine::frames_next(v, fps, g, wall)
    }
}

/// Where nobody waits, `n` frames take the time on by `n` steps of one second
/// divided by the frame rate, and nothing else happens.
#[verifier::spinoff_prover]
#[verifier::rlimit(80)]
pub proof fn idle_frames_pass_the_time(w: WorldView, fps: Flt, n: usize, m: usize, wall: Flt)
    requires
        w.sched.mode is Offline,
        Flt::zero().at_most(w.sched.offline_now),
        fps.finite(),
        Flt::zero().less(fps),
        Flt::zero().less(Flt::one().over(fps)),
        Flt::one().over(fps).finite(),
        w.sched.next_event() is None,
        w.sched.frames =~= Map::empty(),
        m <= n,
    ensures
        ({
            let (v, f) = gone_on(
                w,
                fps,
                engine::frames_start(w, fps, n, wall),
                wall,
                (5 * m) as nat,
            );
            let t = stepped(w.sched.offline_now, Flt::one().over(fps), m as nat);
            &&& v == w.at_time(t)
            &&& Flt::zero().at_most(t)
            &&& f == engine::frames_start(v, fps, (n - m) as usize, wall)
            &&& m == n ==> f is Over
        }),
    decreases m,
{
    let s = engine::frames_start(w, fps, n, wall);
    let dt = Flt::one().over(fps);
    if m == 0 {
        lemma_gone_on(w, fps, s, wall, 0, 0);
        assert(w.at_time(w.sched.offline_now) == w);
    } else {
        let k = (5 * (m - 1)) as nat;
        idle_frames_pass_the_time(w, fps, n, (m - 1) as usize, wall);
        let (v, f) = gone_on(w, fps, s, wall, k);
        let t = stepped(w.sched.offline_now, dt, (m - 1) as nat);
        assert(v == w.at_time(t));
        lemma_idle_frame(v, fps, (n - m + 1) as usize, wall);
        lemma_gone_on(w, fps, s, wall, k, 5);
        assert(k + 5 == 5 * m);
        assert(v.at_time(t.plus(dt)) == w.at_time(t.plus(dt)));
        order::sum_never_shrinks(v.sched.offline_now, dt);
        order::lemma_zero();
    }
}

/// One frame where nobody waits.
proof fn lemma_idle_frame(w: WorldView, fps: Flt, left: usize, wall: Flt)
    requires
        w.sched.mode is Offline,
        Flt::zero().at_most(w.sched.offline_now),
        fps.finite(),
        Flt::zero().less(fps),
        Flt::zero().less(Flt::one().over(fps)),
        Flt::one().over(fps).finite(),
        w.sched.next_event() is None,
        w.sched.frames =~= Map::empty(),
        left > 0,
    ensures
        ({
            let e = gone_on(w, fps, engine::frames_start(w, fps, left, wall), wall, 5);
            let v = w.at_time(w.sched.offline_now.plus(Flt::one().over(fps)));
            &&& e.0 == v
            &&& e.1 == engine::frames_start(v, fps, (left - 1) as usize, wall)
        }),
{
    let t = w.sched.offline_now.plus(Flt::one().over(fps));
    let v = w.at_time(t);
    every_frame_is_as_long(w, fps, left, wall);
    let s = engine::frames_start(w, fps, left, wall);
    order::sum_never_shrinks(w.sched.offline_now, Flt::one().over(fps));
    order::lemma_zero();
    assert(Flt::zero().at_most(t));
    let a = engine::frames_next(w, fps, s, wall);
    let b = engine::frames_next(a.0, fps, a.1, wall);
    let c = engine::frames_next(b.0, fps, b.1, wall);
    let d = engine::frames_next(c.0, fps, c.1, wall);
    assert(v.sched.next_event() is None);
    assert(a.0 == v);
    lemma_no_frames(v);
    assert(b.0 == v);
    assert(c.0 == v);
    assert(d.0 == v.at_time(t));
    assert(d.0 == v);
    let e = engine::frames_next(d.0, fps, d.1, wall);
    reveal_with_fuel(gone_on, 2);
    assert(gone_on(w, fps, s, wall, 0) == (w, s));
    assert(gone_on(w, fps, s, wall, 1) == a);
    assert(gone_on(w, fps, s, wall, 2) == b);
    assert(gone_on(w, fps, s, wall, 3) == c);
    assert(gone_on(w, fps, s, wall, 4) == d);
    assert(gone_on(w, fps, s, wall, 5) == e);
}

/// Going on twice is going on once for as long as both.
proof fn lemma_gone_on(w: WorldView, fps: Flt, f: Frames, wall: Flt, j: nat, k: nat)
    ensures
        gone_on(w, fps, f, wall, 0) == (w, f),
        ({
            let (v, g) = gone_on(w, fps, f, wall, j);
            gone_on(w, fps, f, wall, j + k) == gone_on(v, fps, g, wall, k)
        }),
    decreases k,
{
    reveal_with_fuel(gone_on, 2);
    if k > 0 {
        lemma_gone_on(w, fps, f, wall, j, (k - 1) as nat);
        assert((j + k - 1) as nat == j + (k - 1) as nat);
    }
}

/// Where nobody waits for a frame, a frame changes nothing.
proof fn lemma_no_frames(w: WorldView)
    requires
        w.sched.frames =~= Map::empty(),
    ensures
        w.with_frame() == w,
{
    assert(pq::due(w.sched.frames, Flt::zero()).len() == 0);
    assert(w.with_frame() =~= w);
}

/// A step of some seconds ends that much later than the present; a length that
/// is not positive and finite is no step.
pub proof fn step_goes_forward_by_its_length(w: WorldView, dt: Flt, wall: Flt)
    requires
        Flt::zero().at_most(w.sched.now(wall)),
    ensures
        ({
            let a = engine::advance_start(engine::step_target(w, dt, wall));
            &&& dt.finite() && Flt::zero().less(dt) ==> a.target == w.sched.now(wall).plus(dt)
            &&& !(dt.finite() && Flt::zero().less(dt)) ==> a.target.val()
                == w.sched.now(wall).val()
            &&& w.sched.now(wall).at_most(a.target)
            &&& a.processed == 0
            &&& a.stage is First
        }),
{
    let t = w.sched.now(wall);
    let d = crate::context::forward(dt);
    order::lemma_zero();
    order::sum_never_shrinks(t, d);
    order::lemma_plus_zero(t);
}

/// An advance is for its target, or for time 0 if that is later.
pub proof fn advances_never_go_below_zero(t: Flt)
    requires
        !t.nan(),
    ensures
        Flt::zero().at_most(engine::advance_start(t).target),
        Flt::zero().at_most(t) ==> engine::advance_start(t).target == t,
        t.less(Flt::zero()) ==> engine::advance_start(t).target == Flt::zero(),
        engine::advance_start(t).stage is First,
        engine::advance_start(t).processed == 0,
{
    order::lemma_zero();
}

/// An advance takes a slice where the next wait is due by its target, at the
/// time of that wait, and goes to its target where none is. It ends with the
/// drain at its target.
pub proof fn advance_takes_all_that_is_due(w: WorldView, a: Advance)
    requires
        a.processed < engine::MAX_TIMESLICES,
        !a.target.nan(),
    ensures
        ({
            let (v, b) = engine::advance_next(w, a);
            let next = w.sched.next_event();
            &&& b.target == a.target
            &&& a.stage is First || a.stage is Slice ==> {
                &&& b.stage is Slice <==> (next matches Some(t) && t.at_most(a.target))
                &&& b.stage is Last <==> !(next matches Some(t) && t.at_most(a.target))
                &&& b.stage is Slice ==> v == w.at_time(next->Some_0).with_slice()
                &&& b.stage is Last ==> v == w.at_time(a.target)
                &&& b.processed == a.processed + if a.stage is Slice {
                    1int
                } else {
                    0int
                }
            }
            &&& a.stage is Last ==> b.stage is Over && v == w
            &&& a.stage is Over ==> b == a && v == w
        }),
{
}

/// After the time of a frame was reached, everyone who waits for the frame comes
/// due at that time, and then whatever else is due by then.
pub proof fn frame_ticks_at_its_time(w: WorldView, fps: Flt, left: usize, a: Advance, wall: Flt)
    requires
        a.stage is Last,
    ensures
        ({
            let (v, f) = engine::frames_next(
                w,
                fps,
                Frames::Stepping { left, advance: a },
                wall,
            );
            let (u, g) = engine::frames_next(v, fps, f, wall);
            &&& v == w.with_frame()
            &&& f == (Frames::Ticking { left, tick: Tick::Draining { t: w.sched.offline_now } })
            &&& u == v
            &&& g is Ticking
            &&& g->Ticking_left == left
            &&& g->tick is Settling
            &&& Flt::zero().at_most(w.sched.offline_now) ==> g->tick->Settling_0.target
                == w.sched.offline_now
            &&& g->tick->Settling_0.stage is First
            &&& g->tick->Settling_0.processed == 0
        }),
{
}

/// In real time the host takes the waits that are due first as soon as their
/// time has come. Before that it sleeps, for the time that is left, over the
/// rate at which logical time runs: so long that logical time gets there.
pub proof fn host_sleeps_until_the_next_wait(w: WorldView, t: Flt, wall: Flt)
    requires
        t.finite(),
        w.sched.now(wall).finite(),
        w.sched.rate.finite(),
        w.sched.rate.val() > 0,
    ensures
        ({
            let (v, s) = engine::await_event(w, t, wall);
            let now = w.sched.now(wall);
            let gap = t.minus(now);
            &&& t.at_most(now) ==> s is Drain && v == w.with_slice()
            &&& now.less(t) ==> {
                &&& s is Sleep
                &&& v == w
                &&& Flt::zero().at_most(s->Sleep_0)
                &&& gap.finite() && pow2(60) * w.sched.rate.val() <= gap.val() * pow2(1074)
                    <= pow2(2090) * w.sched.rate.val() ==> near::off(
                    TWO52 * (s->Sleep_0.val() * w.sched.rate.val()),
                    TWO52 * (gap.val() * pow2(1074)),
                    gap.val() * pow2(1074),
                )
            }
        }),
{
    let now = w.sched.now(wall);
    let gap = t.minus(now);
    let rate = w.sched.rate;
    order::lemma_zero();
    if now.less(t) && gap.finite() && pow2(60) * rate.val() <= gap.val() * pow2(1074) <= pow2(2090)
        * rate.val() {
        lemma_pow2_pos(1074);
        lemma_pow2_pos(60);
        assert(gap.val() > 0) by (nonlinear_arith)
            requires
                pow2(60) * rate.val() <= gap.val() * pow2(1074),
                pow2(60) > 0,
                pow2(1074) > 0,
                rate.val() > 0,
        {
            assert(pow2(60) * rate.val() > 0);
        }
        near::lemma_quotient_relative(gap, rate);
        let q = gap.over(rate);
        let x = q.val() * rate.val();
        let y = gap.val() * pow2(1074);
        assert(y > 0) by (nonlinear_arith)
            requires
                y == gap.val() * pow2(1074),
                gap.val() > 0,
                pow2(1074) > 0,
        ;
        assert(x > 0);
        assert(q.val() > 0) by (nonlinear_arith)
            requires
                x == q.val() * rate.val(),
                x > 0,
                rate.val() > 0,
        ;
        assert(q.larger(Flt::zero()) == q);
    }
}

/// What the loops in real time do: both stop when they are to, whatever waits.
/// Else they wait for the next event; where there is none, the one that ends
/// with its task pauses, and so does the other while something else is waited
/// for.
pub proof fn loops_stop_when_they_are_to(
    w: WorldView,
    done: bool,
    root: u64,
    task: Option<u64>,
    wall: Flt,
)
    ensures
        ({
            let (v, s) = engine::until_next(w, done, wall);
            &&& s is Done <==> done
            &&& done ==> v == w
            &&& !done && w.sched.next_event() is None ==> v == w && (s is Pause
                <==> w.sched.pending()) && (s is Ask <==> !w.sched.pending())
            &&& !done && w.sched.next_event() is Some ==> s is Drain || s is Sleep
        }),
        ({
            let (v, s) = engine::complete_next(w, root, task, wall);
            let over = match task {
                Some(t) => !w.tasks.live.contains(t),
                None => true,
            };
            let stop = over || (w.ctxs[root].canceled && w.tasks.ready.len() == 0);
            &&& s is Done <==> stop
            &&& stop ==> v == w
            &&& !stop && w.sched.next_event() is None ==> v == w && s is Pause
            &&& !stop && w.sched.next_event() is Some ==> (v, s) == engine::until_next(
                w,
                false,
                wall,
            )
        }),
{
}

/// In real time the clock runs at its rate from its anchor on, and a change of
/// the rate starts from where the clock is. When stepping, the clock is where
/// the last step left it, whatever the wall clock shows.
pub proof fn clock_runs_at_its_rate(s: SchedView, rate: Flt, a: Flt, b: Flt)
    requires
        rate.finite(),
        Flt::zero().less(rate),
    ensures
        s.mode is Realtime ==> s.with_rate(rate, a).rate == rate && s.with_rate(
            rate,
            a,
        ).logical_anchor == s.now(a) && s.with_rate(rate, a).now(b) == s.now(a).plus(b.times(rate)),
        s.mode is Offline ==> s.now(a) == s.now(b) && s.with_rate(rate, a) == s && s.now(a)
            == s.offline_now,
        s.with_rate(rate, a).times == s.times,
        s.with_rate(rate, a).beats == s.beats,
        s.with_rate(rate, a).heads == s.heads,
        s.with_rate(rate, a).frames == s.frames,
        s.with_rate(rate, a).most_recent_desc_time == s.most_recent_desc_time,
{
}

} // verus!

//! Runs in real time and in steps: what happens is the same, whatever the
//! clock shows.
use vstd::prelude::*;

use crate::barrier;
use crate::barrier::{BarrierView, BarrierWaitView, BarrierWaiter};
use crate::context::{BeatWaitFuture, TimeWaitFuture};
use crate::engine;
use crate::engine::Advance;
use crate::flt::Flt;
use crate::moves;
use crate::moves::{BarrierMove, Move, OwnMove, Reply, TaskMove, TreeMove, WaitMove};
use crate::scheduler::{SchedView, SchedulerMode, WaiterKind};
use crate::tempo::TempoView;
use crate::world::WorldView;

verus! {

/// Where logical time comes from, and what it is.
pub struct Clock {
    /// Where it comes from.
    pub mode: SchedulerMode,
    /// How fast it runs.
    pub rate: Flt,
    /// The logical time at the wall-clock anchor.
    pub logical_anchor: Flt,
    /// The logical time when stepping.
    pub offline_now: Flt,
}

impl SchedView {
    /// With another clock.
    pub open spec fn under(self, c: Clock) -> SchedView {
        SchedView {
            mode: c.mode,
            rate: c.rate,
            logical_anchor: c.logical_anchor,
            offline_now: c.offline_now,
            ..self
        }
    }
}

/// A clock that steps, at time 0.
pub open spec fn stopped() -> Clock {
    Clock {
        mode: SchedulerMode::Offline,
        rate: Flt::one(),
        logical_anchor: Flt::zero(),
        offline_now: Flt::zero(),
    }
}

impl WorldView {
    /// With another clock.
    pub open spec fn under(self, c: Clock) -> WorldView {
        WorldView { sched: self.sched.under(c), ..self }
    }

    /// All but the clock.
    pub open spec fn timeless(self) -> WorldView {
        self.under(stopped())
    }
}

/// What was seen before each move, the clock set aside, and what it gave.
pub type Log = Seq<(WorldView, Reply)>;

/// What tasks and host do next, by what they have seen so far and what the
/// shared state is now, the clock set aside.
pub type Program = spec_fn(Log, WorldView) -> Move;

/// After so many moves of a program, with whatever the clock shows at each,
/// and the log of them.
pub open spec fn played(w: WorldView, p: Program, clocks: spec_fn(nat) -> Clock, n: nat) -> (
    WorldView,
    Log,
)
    decreases n,
{
    if n == 0 {
        (w, Seq::empty())
    } else {
        let k = (n - 1) as nat;
        let (v, log) = played(w, p, clocks, k);
        let now = v.under(clocks(k));
        let m = p(log, now.timeless());
        (now.after(m), log.push((now.timeless(), now.reply(m))))
    }
}

proof fn lemma_sliced(s: SchedView, tempos: Map<u64, TempoView>, c: Clock)
    ensures
        s.under(c).sliced(tempos).0 == s.sliced(tempos).0.under(c),
        s.under(c).sliced(tempos).1 == s.sliced(tempos).1,
{
}

proof fn lemma_without(
    s: SchedView,
    tempos: Map<u64, TempoView>,
    id: u64,
    kind: WaiterKind,
    c: Clock,
)
    ensures
        s.under(c).without(tempos, id, kind) == s.without(tempos, id, kind).under(c),
{
}

proof fn lemma_all_ok(w: WorldView, ids: Seq<u64>, c: Clock)
    ensures
        w.under(c).with_all_ok(ids) == w.with_all_ok(ids).under(c),
    decreases ids.len(),
{
    if ids.len() > 0 {
        lemma_all_ok(w, ids.drop_last(), c);
    }
}

proof fn lemma_waiters_cancelled(w: WorldView, ws: Seq<(u64, WaiterKind)>, c: Clock)
    ensures
        w.under(c).with_waiters_cancelled(ws) == w.with_waiters_cancelled(ws).under(c),
    decreases ws.len(),
{
    if ws.len() > 0 {
        let v = w.with_waiters_cancelled(ws.drop_last());
        lemma_waiters_cancelled(w, ws.drop_last(), c);
        lemma_without(v.sched, v.tempos.maps, ws.last().0, ws.last().1, c);
    }
}

proof fn lemma_cancelled(w: WorldView, id: u64, c: Clock)
    ensures
        w.under(c).cancelled(id) == w.cancelled(id).under(c),
    decreases u64::MAX - id, w.ctxs[id].children.len() + 1,
{
    if w.ctxs.contains_key(id) && !w.ctxs[id].canceled {
        let x = w.ctxs[id];
        lemma_waiters_cancelled(w.with_mark(id), x.waiters, c);
        lemma_children_cancelled(
            w.with_mark(id).with_waiters_cancelled(x.waiters),
            id,
            x.children,
            x.children.len(),
            c,
        );
        assert(w.under(c).with_mark(id) == w.with_mark(id).under(c));
    }
}

proof fn lemma_children_cancelled(w: WorldView, id: u64, children: Seq<u64>, n: nat, c: Clock)
    ensures
        w.under(c).with_children_cancelled(id, children, n) == w.with_children_cancelled(
            id,
            children,
            n,
        ).under(c),
    decreases u64::MAX - id, n,
{
    if n > 0 {
        lemma_children_cancelled(w, id, children, (n - 1) as nat, c);
        let k = children[n - 1];
        if id < k {
            lemma_cancelled(w.with_children_cancelled(id, children, (n - 1) as nat), k, c);
        }
    }
}

proof fn lemma_waiters_freed(
    w: WorldView,
    xs: Seq<BarrierWaiter>,
    t: Flt,
    reach: bool,
    c: Clock,
)
    ensures
        w.under(c).with_waiters_freed(xs, t, reach) == w.with_waiters_freed(xs, t, reach).under(c),
    decreases xs.len(),
{
    if xs.len() > 0 {
        lemma_waiters_freed(w, xs.drop_last(), t, reach, c);
    }
}

/// A move comes to the same under another clock, and gives the same.
pub open spec fn alike(under: (WorldView, Reply), plain: (WorldView, Reply), c: Clock) -> bool {
    &&& under.0 == plain.0.under(c)
    &&& under.1 == plain.1
}

proof fn lemma_time_polled(w: WorldView, f: TimeWaitFuture, waker: u64, c: Clock)
    ensures
        w.under(c).time_polled(f, waker).0 == w.time_polled(f, waker).0.under(c),
        w.under(c).time_polled(f, waker).1 == w.time_polled(f, waker).1,
        w.under(c).time_polled(f, waker).2 == w.time_polled(f, waker).2,
{
}

proof fn lemma_beat_polled(w: WorldView, f: BeatWaitFuture, waker: u64, c: Clock)
    ensures
        w.under(c).beat_polled(f, waker).0 == w.beat_polled(f, waker).0.under(c),
        w.under(c).beat_polled(f, waker).1 == w.beat_polled(f, waker).1,
        w.under(c).beat_polled(f, waker).2 == w.beat_polled(f, waker).2,
{
}

proof fn lemma_barrier_polled(w: WorldView, f: BarrierWaitView, waker: u64, c: Clock)
    ensures
        w.under(c).barrier_polled(f, waker).0 == w.barrier_polled(f, waker).0.under(c),
        w.under(c).barrier_polled(f, waker).1 == w.barrier_polled(f, waker).1,
        w.under(c).barrier_polled(f, waker).2 == w.barrier_polled(f, waker).2,
{
}

proof fn lemma_with_slice(w: WorldView, c: Clock)
    ensures
        w.under(c).with_slice() == w.with_slice().under(c),
        w.under(c).sched.sliced(w.tempos.maps).1 == w.sched.sliced(w.tempos.maps).1,
{
    lemma_sliced(w.sched, w.tempos.maps, c);
    let (sched, ids) = w.sched.sliced(w.tempos.maps);
    lemma_all_ok(WorldView { sched, ..w }, ids, c);
}

proof fn lemma_started(w: WorldView, ctx: u64, key: Seq<char>, c: Clock)
    ensures
        w.under(c).barrier_started(ctx, key) == w.barrier_started(ctx, key).under(c),
{
    let root = w.root_of(ctx);
    let v = w.with_barrier(root, key);
    let i = barrier::at(v.barriers, root, key);
    let b = v.barriers[i];
    let emptied = BarrierView { waiters: Seq::empty(), ..b };
    lemma_waiters_freed(v.with_barrier_at(i, emptied), b.waiters, b.resolved, false, c);
}

proof fn lemma_resolved(w: WorldView, ctx: u64, key: Seq<char>, c: Clock)
    ensures
        w.under(c).barrier_resolved(ctx, key) == w.barrier_resolved(ctx, key).under(c),
{
    let root = w.root_of(ctx);
    let i = barrier::at(w.barriers, root, key);
    let b = w.barriers[i];
    let t = w.ctxs[ctx].time;
    let emptied = BarrierView { resolved: t, in_progress: false, waiters: Seq::empty(), ..b };
    lemma_waiters_freed(w.with_barrier_at(i, emptied), b.waiters, t, true, c);
}

proof fn lemma_task(w: WorldView, m: TaskMove, c: Clock)
    ensures
        alike(w.under(c).after_task(m), w.after_task(m), c),
{
    reveal(WorldView::after_task);
}

proof fn lemma_wait(w: WorldView, m: WaitMove, c: Clock)
    ensures
        alike(w.under(c).after_wait(m), w.after_wait(m), c),
{
    reveal(WorldView::after_wait);
    match m {
        WaitMove::Slice => lemma_with_slice(w, c),
        WaitMove::PollTime { time_wait, waker } => lemma_time_polled(w, time_wait, waker, c),
        WaitMove::PollBeat { beat_wait, waker } => lemma_beat_polled(w, beat_wait, waker, c),
    }
}

proof fn lemma_tree(w: WorldView, m: TreeMove, c: Clock)
    ensures
        alike(w.under(c).after_tree(m), w.after_tree(m), c),
{
    reveal(WorldView::after_tree);
    match m {
        TreeMove::Cancel { ctx } => lemma_cancelled(w, ctx, c),
        _ => {},
    }
}

proof fn lemma_barrier(w: WorldView, m: BarrierMove, c: Clock)
    ensures
        alike(w.under(c).after_barrier(m), w.after_barrier(m), c),
{
    reveal(WorldView::after_barrier);
    match m {
        BarrierMove::Start { ctx, key } => lemma_started(w, ctx, key, c),
        BarrierMove::Resolve { ctx, key } => lemma_resolved(w, ctx, key, c),
        BarrierMove::Poll { wait, waker } => lemma_barrier_polled(w, wait, waker, c),
        _ => {},
    }
}

proof fn lemma_own(w: WorldView, m: OwnMove, c: Clock)
    ensures
        alike(w.under(c).after_own(m), w.after_own(m), c),
{
    reveal(WorldView::after_own);
}

/// A move does not look at the clock and does not touch it.
pub proof fn moves_ignore_the_clock(w: WorldView, m: Move, c: Clock)
    ensures
        w.under(c).after(m) == w.after(m).under(c),
        w.under(c).reply(m) == w.reply(m),
{
    match m {
        Move::Task(x) => lemma_task(w, x, c),
        Move::Wait(x) => lemma_wait(w, x, c),
        Move::Tree(x) => lemma_tree(w, x, c),
        Move::Barrier(x) => lemma_barrier(w, x, c),
        Move::Own(x) => lemma_own(w, x, c),
    }
}

/// What tasks and host do, in which order, and what they see, does not depend
/// on the clock: two runs of one program that start from the same state, one
/// in real time and one in steps, or at two rates, have made the same moves
/// with the same replies after any number of them, and have come to the same
/// state but for the clock.
pub proof fn runs_agree(
    w: WorldView,
    v: WorldView,
    p: Program,
    clocks: spec_fn(nat) -> Clock,
    others: spec_fn(nat) -> Clock,
    n: nat,
)
    requires
        w.timeless() == v.timeless(),
    ensures
        played(w, p, clocks, n).0.timeless() == played(v, p, others, n).0.timeless(),
        played(w, p, clocks, n).1 == played(v, p, others, n).1,
    decreases n,
{
    if n > 0 {
        let k = (n - 1) as nat;
        runs_agree(w, v, p, clocks, others, k);
        let a = played(w, p, clocks, k);
        let b = played(v, p, others, k);
        let still = a.0.timeless();
        assert(a.0.under(clocks(k)) == still.under(clocks(k)));
        assert(b.0.under(others(k)) == still.under(others(k)));
        assert(still.under(clocks(k)).timeless() == still);
        assert(still.under(others(k)).timeless() == still);
        let m = p(a.1, still);
        moves_ignore_the_clock(still, m, clocks(k));
        moves_ignore_the_clock(still, m, others(k));
    }
}

/// Engines with one tempo and one seed start from the same state, whatever
/// their clocks.
pub proof fn modes_start_alike(
    mode: SchedulerMode,
    rate: Flt,
    other_mode: SchedulerMode,
    other_rate: Flt,
    bpm: Flt,
    seed: Seq<char>,
)
    ensures
        engine::launched(mode, bpm, seed, rate).timeless() == engine::launched(
            other_mode,
            bpm,
            seed,
            other_rate,
        ).timeless(),
{
}

/// The loops add nothing but slices of time. From states that differ in the
/// clock alone, a step of an advance and a step in real time either take the
/// same slice, or leave all but the clock as it is.
pub proof fn loops_take_the_same_slices(
    w: WorldView,
    v: WorldView,
    a: Advance,
    done: bool,
    root: u64,
    task: Option<u64>,
    wall: Flt,
)
    requires
        w.timeless() == v.timeless(),
        a.stage is First || a.stage is Slice,
    ensures
        ({
            let (x, b) = engine::advance_next(w, a);
            x.timeless() == if b.stage is Slice {
                w.timeless().after(moves::slice())
            } else {
                w.timeless()
            }
        }),
        ({
            let (x, step) = engine::until_next(v, done, wall);
            x.timeless() == if step is Drain {
                w.timeless().after(moves::slice())
            } else {
                w.timeless()
            }
        }),
        ({
            let (x, step) = engine::complete_next(v, root, task, wall);
            x.timeless() == if step is Drain {
                w.timeless().after(moves::slice())
            } else {
                w.timeless()
            }
        }),
{
    reveal(WorldView::after_wait);
    lemma_with_slice(v, stopped());
    match w.sched.next_event() {
        Some(t) => {
            let x = w.at_time(t);
            lemma_with_slice(x, stopped());
            assert(x.timeless() == w.timeless());
        },
        None => {},
    }
    assert(w.at_time(a.target).timeless() == w.timeless());
}

/// A change of the rate changes the clock alone.
pub proof fn rate_is_of_the_clock(w: WorldView, rate: Flt, wall: Flt)
    ensures
        (WorldView { sched: w.sched.with_rate(rate, wall), ..w }).timeless() == w.timeless(),
{
}

} // verus!

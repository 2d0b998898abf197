//! What every move keeps: time does not run back, and the queue of what is
//! due first stays in step with the waits.
use vstd::prelude::*;

use crate::barrier;
use crate::barrier::{BarrierView, BarrierWaitView, BarrierWaiter};
use crate::context;
use crate::context::{BeatWaitFuture, TimeWaitFuture};
use crate::engine;
use crate::flt::order;
use crate::flt::Flt;
use crate::laws;
use crate::moves;
use crate::moves::{BarrierMove, Move, OwnMove, TaskMove, TreeMove, WaitMove};
use crate::pq;
use crate::scheduler;
use crate::scheduler::{BeatWaitMeta, SchedView, SchedulerMode, WaiterKind};
use crate::tempo;
use crate::tempo::{TempoSegment, TempoView};
use crate::world::WorldView;

verus! {

/// Contexts stand under their own numbers, and times are numbers.
pub open spec fn timed(w: WorldView) -> bool {
    &&& !w.sched.most_recent_desc_time.nan()
    &&& forall|id: u64| #[trigger]
        w.ctxs.contains_key(id) ==> w.ctxs[id].id == id && !w.ctxs[id].time.nan()
}

/// No context of `w` is at an earlier time in `v`, and no earlier time is the
/// latest that any wait has reached.
pub open spec fn runs_on(w: WorldView, v: WorldView) -> bool {
    &&& w.sched.most_recent_desc_time.at_most(v.sched.most_recent_desc_time)
    &&& forall|id: u64| #[trigger]
        w.ctxs.contains_key(id) && v.ctxs.contains_key(id) ==> w.ctxs[id].time.at_most(
            v.ctxs[id].time,
        )
}

proof fn lemma_all_ok_parts(w: WorldView, ids: Seq<u64>)
    ensures
        w.with_all_ok(ids).ctxs == w.ctxs,
        w.with_all_ok(ids).sched == w.sched,
        w.with_all_ok(ids).tempos == w.tempos,
    decreases ids.len(),
{
    if ids.len() > 0 {
        lemma_all_ok_parts(w, ids.drop_last());
    }
}

proof fn lemma_freed_runs_on(w: WorldView, xs: Seq<BarrierWaiter>, t: Flt, reach: bool)
    requires
        timed(w),
    ensures
        timed(w.with_waiters_freed(xs, t, reach)),
        runs_on(w, w.with_waiters_freed(xs, t, reach)),
        w.with_waiters_freed(xs, t, reach).ctxs.dom() == w.ctxs.dom(),
    decreases xs.len(),
{
    if xs.len() > 0 {
        lemma_freed_runs_on(w, xs.drop_last(), t, reach);
        let v = w.with_waiters_freed(xs.drop_last(), t, reach);
        let u = v.with_waiter_freed(xs.last(), t, reach);
        assert(u.ctxs.dom() =~= v.ctxs.dom());
        assert(timed(u));
        assert(runs_on(v, u));
    }
}

proof fn lemma_waiters_cancelled_reach(w: WorldView, ws: Seq<(u64, WaiterKind)>)
    ensures
        w.with_waiters_cancelled(ws).sched.most_recent_desc_time == w.sched.most_recent_desc_time,
    decreases ws.len(),
{
    if ws.len() > 0 {
        lemma_waiters_cancelled_reach(w, ws.drop_last());
    }
}

proof fn lemma_cancelled_reach(w: WorldView, id: u64)
    ensures
        w.cancelled(id).sched.most_recent_desc_time == w.sched.most_recent_desc_time,
    decreases u64::MAX - id, w.ctxs[id].children.len() + 1,
{
    if w.ctxs.contains_key(id) && !w.ctxs[id].canceled {
        let x = w.ctxs[id];
        lemma_waiters_cancelled_reach(w.with_mark(id), x.waiters);
        lemma_children_cancelled_reach(
            w.with_mark(id).with_waiters_cancelled(x.waiters),
            id,
            x.children,
            x.children.len(),
        );
    }
}

proof fn lemma_children_cancelled_reach(w: WorldView, id: u64, children: Seq<u64>, n: nat)
    ensures
        w.with_children_cancelled(id, children, n).sched.most_recent_desc_time
            == w.sched.most_recent_desc_time,
    decreases u64::MAX - id, n,
{
    if n > 0 {
        lemma_children_cancelled_reach(w, id, children, (n - 1) as nat);
        let k = children[n - 1];
        if id < k {
            lemma_cancelled_reach(w.with_children_cancelled(id, children, (n - 1) as nat), k);
        }
    }
}

proof fn lemma_slice_parts(w: WorldView)
    ensures
        w.with_slice().sched == w.sched.sliced(w.tempos.maps).0,
        w.with_slice().tempos == w.tempos,
        w.with_slice().ctxs == w.ctxs,
{
    let (sched, ids) = w.sched.sliced(w.tempos.maps);
    lemma_all_ok_parts(WorldView { sched, ..w }, ids);
}

proof fn lemma_started_runs_on(w: WorldView, ctx: u64, key: Seq<char>)
    requires
        timed(w),
    ensures
        runs_on(w, w.barrier_started(ctx, key)),
{
    let root = w.root_of(ctx);
    let v = w.with_barrier(root, key);
    let i = barrier::at(v.barriers, root, key);
    let b = v.barriers[i];
    let emptied = BarrierView { waiters: Seq::empty(), ..b };
    lemma_freed_runs_on(v.with_barrier_at(i, emptied), b.waiters, b.resolved, false);
}

proof fn lemma_resolved_runs_on(w: WorldView, ctx: u64, key: Seq<char>)
    requires
        timed(w),
    ensures
        runs_on(w, w.barrier_resolved(ctx, key)),
{
    let root = w.root_of(ctx);
    let i = barrier::at(w.barriers, root, key);
    let b = w.barriers[i];
    let t = w.ctxs[ctx].time;
    let emptied = BarrierView { resolved: t, in_progress: false, waiters: Seq::empty(), ..b };
    lemma_freed_runs_on(w.with_barrier_at(i, emptied), b.waiters, t, true);
}

proof fn lemma_time_polled_runs_on(w: WorldView, f: TimeWaitFuture, waker: u64)
    requires
        timed(w),
        w.ctxs.contains_key(f.ctx.id),
    ensures
        runs_on(w, w.time_polled(f, waker).0),
{
}

proof fn lemma_beat_polled_runs_on(w: WorldView, f: BeatWaitFuture, waker: u64)
    requires
        timed(w),
        w.ctxs.contains_key(f.ctx.id),
    ensures
        runs_on(w, w.beat_polled(f, waker).0),
{
}

proof fn lemma_barrier_polled_runs_on(w: WorldView, f: BarrierWaitView, waker: u64)
    requires
        timed(w),
        w.ctxs.contains_key(f.ctx.id),
    ensures
        runs_on(w, w.barrier_polled(f, waker).0),
{
}

proof fn lemma_task_runs_on(w: WorldView, m: TaskMove)
    requires
        timed(w),
    ensures
        runs_on(w, w.after_task(m).0),
{
    reveal(WorldView::after_task);
}

proof fn lemma_wait_runs_on(w: WorldView, m: WaitMove)
    requires
        timed(w),
        moves::allowed(w, Move::Wait(m)),
    ensures
        runs_on(w, w.after_wait(m).0),
{
    reveal(WorldView::after_wait);
    match m {
        WaitMove::Slice => lemma_slice_parts(w),
        WaitMove::PollTime { time_wait, waker } => lemma_time_polled_runs_on(
            w,
            time_wait,
            waker,
        ),
        WaitMove::PollBeat { beat_wait, waker } => lemma_beat_polled_runs_on(
            w,
            beat_wait,
            waker,
        ),
    }
}

proof fn lemma_tree_runs_on(w: WorldView, m: TreeMove)
    requires
        w.wf(),
        timed(w),
        moves::allowed(w, Move::Tree(m)),
    ensures
        runs_on(w, w.after_tree(m).0),
{
    reveal(WorldView::after_tree);
    match m {
        TreeMove::Cancel { ctx } => {
            laws::cancel_touches_nothing_else(w, ctx);
            lemma_cancelled_reach(w, ctx);
        },
        _ => {},
    }
}

proof fn lemma_barrier_runs_on(w: WorldView, m: BarrierMove)
    requires
        timed(w),
        moves::allowed(w, Move::Barrier(m)),
    ensures
        runs_on(w, w.after_barrier(m).0),
{
    reveal(WorldView::after_barrier);
    match m {
        BarrierMove::Start { ctx, key } => lemma_started_runs_on(w, ctx, key),
        BarrierMove::Resolve { ctx, key } => lemma_resolved_runs_on(w, ctx, key),
        BarrierMove::Poll { wait, waker } => lemma_barrier_polled_runs_on(w, wait, waker),
        _ => {},
    }
}

proof fn lemma_own_runs_on(w: WorldView, m: OwnMove)
    requires
        timed(w),
        moves::allowed(w, Move::Own(m)),
        !(m is SetTime),
    ensures
        runs_on(w, w.after_own(m).0),
{
    reveal(WorldView::after_own);
}

/// No move but to set the time of a context moves any time back: not that of
/// a context, nor the latest that any wait has reached.
pub proof fn time_never_runs_back(w: WorldView, m: Move)
    requires
        w.wf(),
        timed(w),
        moves::allowed(w, m),
        !(m matches Move::Own(OwnMove::SetTime { .. })),
    ensures
        runs_on(w, w.after(m)),
{
    match m {
        Move::Task(x) => lemma_task_runs_on(w, x),
        Move::Wait(x) => lemma_wait_runs_on(w, x),
        Move::Tree(x) => lemma_tree_runs_on(w, x),
        Move::Barrier(x) => lemma_barrier_runs_on(w, x),
        Move::Own(x) => lemma_own_runs_on(w, x),
    }
}

/// The queue of what is due first knows of a tempo what it should: nothing
/// where no wait is for one of its beats, else when the first of them is due,
/// where that is a finite time.
pub open spec fn in_step_at(s: SchedView, tempos: Map<u64, TempoView>, id: u64) -> bool {
    &&& s.beats_of(id).is_empty() ==> !s.heads.contains_key(id)
    &&& !s.beats_of(id).is_empty() && s.head_due(tempos, id).finite() ==> {
        &&& s.heads.contains_key(id)
        &&& s.heads[id].0 == s.head_due(tempos, id)
    }
}

/// That holds of every tempo.
pub open spec fn in_step(s: SchedView, tempos: Map<u64, TempoView>) -> bool {
    forall|id: u64| #[trigger] in_step_at(s, tempos, id)
}

proof fn lemma_refreshed_in_step(s: SchedView, tempos: Map<u64, TempoView>, id: u64)
    requires
        forall|k: u64| k != id ==> #[trigger] in_step_at(s, tempos, k),
    ensures
        in_step(s.refreshed(tempos, id), tempos),
{
    let r = s.refreshed(tempos, id);
    assert forall|k: u64| #[trigger] in_step_at(r, tempos, k) by {
        assert(r.beats == s.beats);
        if k != id {
            assert(in_step_at(s, tempos, k));
        }
    }
}

proof fn lemma_without_in_step(
    s: SchedView,
    tempos: Map<u64, TempoView>,
    id: u64,
    kind: WaiterKind,
)
    requires
        in_step(s, tempos),
    ensures
        in_step(s.without(tempos, id, kind), tempos),
{
    match kind {
        WaiterKind::Beat { tempo_id } => {
            let less = if s.beats.contains_key(tempo_id) {
                s.beats.insert(tempo_id, s.beats[tempo_id].remove(id))
            } else {
                s.beats
            };
            let r = SchedView { beats: less, ..s };
            assert forall|k: u64| k != tempo_id implies #[trigger] in_step_at(r, tempos, k) by {
                assert(in_step_at(s, tempos, k));
                assert(r.beats_of(k) == s.beats_of(k));
            }
            lemma_refreshed_in_step(r, tempos, tempo_id);
        },
        _ => {
            let r = s.without(tempos, id, kind);
            assert forall|k: u64| #[trigger] in_step_at(r, tempos, k) by {
                assert(in_step_at(s, tempos, k));
            }
        },
    }
}

proof fn lemma_sliced_in_step(s: SchedView, tempos: Map<u64, TempoView>)
    requires
        in_step(s, tempos),
    ensures
        in_step(s.sliced(tempos).0, tempos),
{
    let t = pq::earliest(s.times);
    let id = pq::first(s.heads);
    let q = s.beats_of(id);
    if t.at_most(pq::earliest(s.heads)) {
        let r = SchedView { times: pq::rest(s.times, t), ..s };
        assert forall|k: u64| #[trigger] in_step_at(r, tempos, k) by {
            assert(in_step_at(s, tempos, k));
        }
    } else if !s.heads.is_empty() {
        let less = SchedView { heads: s.heads.remove(id), ..s };
        if q.is_empty() {
            assert forall|k: u64| #[trigger] in_step_at(less, tempos, k) by {
                assert(in_step_at(s, tempos, k));
            }
        } else {
            let kept = if !s.head_due(tempos, id).finite() {
                q.remove(pq::first(q))
            } else {
                pq::rest(q, pq::earliest(q))
            };
            let r = SchedView { beats: s.beats.insert(id, kept), ..less };
            assert forall|k: u64| k != id implies #[trigger] in_step_at(r, tempos, k) by {
                assert(in_step_at(s, tempos, k));
                assert(r.beats_of(k) == s.beats_of(k));
            }
            lemma_refreshed_in_step(r, tempos, id);
        }
    }
}

proof fn lemma_waiters_cancelled_in_step(w: WorldView, ws: Seq<(u64, WaiterKind)>)
    requires
        in_step(w.sched, w.tempos.maps),
    ensures
        w.with_waiters_cancelled(ws).tempos == w.tempos,
        in_step(w.with_waiters_cancelled(ws).sched, w.tempos.maps),
    decreases ws.len(),
{
    if ws.len() > 0 {
        lemma_waiters_cancelled_in_step(w, ws.drop_last());
        let v = w.with_waiters_cancelled(ws.drop_last());
        lemma_without_in_step(v.sched, w.tempos.maps, ws.last().0, ws.last().1);
    }
}

proof fn lemma_cancelled_in_step(w: WorldView, id: u64)
    requires
        in_step(w.sched, w.tempos.maps),
    ensures
        w.cancelled(id).tempos == w.tempos,
        in_step(w.cancelled(id).sched, w.tempos.maps),
    decreases u64::MAX - id, w.ctxs[id].children.len() + 1,
{
    if w.ctxs.contains_key(id) && !w.ctxs[id].canceled {
        let x = w.ctxs[id];
        lemma_waiters_cancelled_in_step(w.with_mark(id), x.waiters);
        lemma_children_cancelled_in_step(
            w.with_mark(id).with_waiters_cancelled(x.waiters),
            id,
            x.children,
            x.children.len(),
        );
    }
}

proof fn lemma_children_cancelled_in_step(w: WorldView, id: u64, children: Seq<u64>, n: nat)
    requires
        in_step(w.sched, w.tempos.maps),
    ensures
        w.with_children_cancelled(id, children, n).tempos == w.tempos,
        in_step(w.with_children_cancelled(id, children, n).sched, w.tempos.maps),
    decreases u64::MAX - id, n,
{
    if n > 0 {
        lemma_children_cancelled_in_step(w, id, children, (n - 1) as nat);
        let k = children[n - 1];
        if id < k {
            lemma_cancelled_in_step(w.with_children_cancelled(id, children, (n - 1) as nat), k);
        }
    }
}

/// Nothing that the order of beats rests on is touched.
spec fn same_beats(a: WorldView, b: WorldView) -> bool {
    &&& a.sched.beats == b.sched.beats
    &&& a.sched.heads == b.sched.heads
}

proof fn lemma_same_beats(a: WorldView, b: WorldView)
    requires
        in_step(a.sched, a.tempos.maps),
        same_beats(a, b),
        forall|id: u64| #[trigger]
            a.sched.beats.contains_key(id) ==> a.tempos.maps[id] == b.tempos.maps[id],
    ensures
        in_step(b.sched, b.tempos.maps),
{
    assert forall|k: u64| #[trigger] in_step_at(b.sched, b.tempos.maps, k) by {
        assert(in_step_at(a.sched, a.tempos.maps, k));
    }
}

proof fn lemma_freed_same_beats(w: WorldView, xs: Seq<BarrierWaiter>, t: Flt, reach: bool)
    ensures
        same_beats(w, w.with_waiters_freed(xs, t, reach)),
        w.with_waiters_freed(xs, t, reach).tempos == w.tempos,
    decreases xs.len(),
{
    if xs.len() > 0 {
        lemma_freed_same_beats(w, xs.drop_last(), t, reach);
    }
}

proof fn lemma_retuned_in_step(w: WorldView, id: u64, segs: Seq<TempoSegment>)
    requires
        in_step(w.sched, w.tempos.maps),
    ensures
        in_step(w.with_tempo(id, segs).sched, w.with_tempo(id, segs).tempos.maps),
{
    let maps = w.tempos.changed(id, segs).maps;
    assert forall|k: u64| k != id implies #[trigger] in_step_at(w.sched, maps, k) by {
        assert(in_step_at(w.sched, w.tempos.maps, k));
    }
    lemma_refreshed_in_step(w.sched, maps, id);
}

proof fn lemma_beat_polled_in_step(w: WorldView, f: BeatWaitFuture, waker: u64)
    requires
        in_step(w.sched, w.tempos.maps),
    ensures
        ({
            let v = w.beat_polled(f, waker).0;
            in_step(v.sched, v.tempos.maps)
        }),
{
    let due = tempo::time_at(w.tempos.maps[f.tempo_id].segs, f.target_beat);
    let t = w.ctxs[f.ctx.id].time.larger(due);
    let kind = WaiterKind::Beat { tempo_id: f.tempo_id };
    let (v, p, _) = w.polled(f.ctx.id, f.phase, kind, waker, t);
    lemma_same_beats(w, v);
    if f.phase is Fresh && p is Registered {
        let id = context::number_of(p);
        let q = scheduler::added(
            v.sched.beats_of(f.tempo_id),
            id,
            f.target_beat,
            id,
            BeatWaitMeta {
                seq: id,
                target_beat: f.target_beat,
                waiter_id: id,
                tempo_id: f.tempo_id,
            },
        );
        let r = SchedView { beats: v.sched.beats.insert(f.tempo_id, q), ..v.sched };
        assert forall|k: u64| k != f.tempo_id implies #[trigger] in_step_at(
            r,
            v.tempos.maps,
            k,
        ) by {
            assert(in_step_at(v.sched, v.tempos.maps, k));
            assert(r.beats_of(k) == v.sched.beats_of(k));
        }
        lemma_refreshed_in_step(r, v.tempos.maps, f.tempo_id);
    }
}

proof fn lemma_started_same_beats(w: WorldView, ctx: u64, key: Seq<char>)
    ensures
        same_beats(w, w.barrier_started(ctx, key)),
        w.barrier_started(ctx, key).tempos == w.tempos,
{
    let root = w.root_of(ctx);
    let v = w.with_barrier(root, key);
    let i = barrier::at(v.barriers, root, key);
    let b = v.barriers[i];
    let emptied = BarrierView { waiters: Seq::empty(), ..b };
    lemma_freed_same_beats(v.with_barrier_at(i, emptied), b.waiters, b.resolved, false);
}

proof fn lemma_resolved_same_beats(w: WorldView, ctx: u64, key: Seq<char>)
    ensures
        same_beats(w, w.barrier_resolved(ctx, key)),
        w.barrier_resolved(ctx, key).tempos == w.tempos,
{
    let i = barrier::at(w.barriers, w.root_of(ctx), key);
    let b = w.barriers[i];
    let t = w.ctxs[ctx].time;
    let emptied = BarrierView { resolved: t, in_progress: false, waiters: Seq::empty(), ..b };
    lemma_freed_same_beats(w.with_barrier_at(i, emptied), b.waiters, t, true);
}

proof fn lemma_task_in_step(w: WorldView, m: TaskMove)
    requires
        in_step(w.sched, w.tempos.maps),
    ensures
        in_step(w.after_task(m).0.sched, w.after_task(m).0.tempos.maps),
{
    reveal(WorldView::after_task);
}

proof fn lemma_wait_in_step(w: WorldView, m: WaitMove)
    requires
        in_step(w.sched, w.tempos.maps),
    ensures
        in_step(w.after_wait(m).0.sched, w.after_wait(m).0.tempos.maps),
{
    reveal(WorldView::after_wait);
    match m {
        WaitMove::Slice => {
            lemma_sliced_in_step(w.sched, w.tempos.maps);
            lemma_slice_parts(w);
        },
        WaitMove::PollTime { time_wait, waker } => {
            let v = w.time_polled(time_wait, waker).0;
            assert(same_beats(w, v) && v.tempos == w.tempos);
            lemma_same_beats(w, v);
        },
        WaitMove::PollBeat { beat_wait, waker } => lemma_beat_polled_in_step(
            w,
            beat_wait,
            waker,
        ),
    }
}

proof fn lemma_tree_in_step(w: WorldView, m: TreeMove)
    requires
        w.wf(),
        in_step(w.sched, w.tempos.maps),
    ensures
        in_step(w.after_tree(m).0.sched, w.after_tree(m).0.tempos.maps),
{
    match m {
        TreeMove::Cancel { ctx } => {
            assert(w.after_tree(m).0 == w.cancelled(ctx)) by {
                reveal(WorldView::after_tree);
            }
            lemma_cancelled_in_step(w, ctx);
        },
        _ => {
            let v = w.after_tree(m).0;
            assert(same_beats(w, v)) by {
                reveal(WorldView::after_tree);
            }
            assert forall|id: u64| #[trigger] w.sched.beats.contains_key(id) implies
                w.tempos.maps[id] == v.tempos.maps[id] by {
                reveal(WorldView::after_tree);
                assert(w.tempos.maps.contains_key(id));
            }
            lemma_same_beats(w, v);
        },
    }
}

proof fn lemma_barrier_same_beats(w: WorldView, m: BarrierMove)
    ensures
        same_beats(w, w.after_barrier(m).0),
        w.after_barrier(m).0.tempos == w.tempos,
{
    reveal(WorldView::after_barrier);
    match m {
        BarrierMove::Start { ctx, key } => lemma_started_same_beats(w, ctx, key),
        BarrierMove::Resolve { ctx, key } => lemma_resolved_same_beats(w, ctx, key),
        _ => {},
    }
}

proof fn lemma_own_in_step(w: WorldView, m: OwnMove)
    requires
        in_step(w.sched, w.tempos.maps),
    ensures
        in_step(w.after_own(m).0.sched, w.after_own(m).0.tempos.maps),
{
    reveal(WorldView::after_own);
    let now = w.sched.most_recent_desc_time;
    match m {
        OwnMove::SetBpm { ctx, bpm } => {
            let k = w.ctxs[ctx].tempo;
            lemma_retuned_in_step(w, k, tempo::with_bpm(w.tempos.maps[k].segs, bpm, now));
        },
        OwnMove::Ramp { ctx, bpm, dur } => {
            let k = w.ctxs[ctx].tempo;
            lemma_retuned_in_step(w, k, tempo::with_ramp(w.tempos.maps[k].segs, bpm, dur, now));
        },
        _ => {
            lemma_same_beats(w, w.after_own(m).0);
        },
    }
}

/// Waits for beats never go astray: whatever is done, the queue of what is
/// due first stays in step with the waits and with the tempos.
pub proof fn heads_stay_in_step(w: WorldView, m: Move)
    requires
        w.wf(),
        in_step(w.sched, w.tempos.maps),
    ensures
        in_step(w.after(m).sched, w.after(m).tempos.maps),
{
    match m {
        Move::Task(x) => lemma_task_in_step(w, x),
        Move::Wait(x) => lemma_wait_in_step(w, x),
        Move::Tree(x) => lemma_tree_in_step(w, x),
        Move::Barrier(x) => {
            lemma_barrier_same_beats(w, x);
            lemma_same_beats(w, w.after(m));
        },
        Move::Own(x) => lemma_own_in_step(w, x),
    }
}

/// A new engine is in step.
pub proof fn engines_start_in_step(mode: SchedulerMode, bpm: Flt, seed: Seq<char>, rate: Flt)
    ensures
        ({
            let w = engine::launched(mode, bpm, seed, rate);
            in_step(w.sched, w.tempos.maps)
        }),
{
}

/// No wait for a beat is due before the time of the next event: not the first
/// for a beat of any tempo.
pub proof fn next_event_is_before_every_head(
    s: SchedView,
    tempos: Map<u64, TempoView>,
    t: Flt,
    id: u64,
)
    requires
        in_step(s, tempos),
        s.next_event() == Some(t),
        s.heads.dom().finite(),
        !s.beats_of(id).is_empty(),
        s.head_due(tempos, id).finite(),
        !pq::earliest(s.times).nan(),
        !pq::earliest(s.heads).nan(),
    ensures
        t.at_most(s.head_due(tempos, id)),
{
    assert(in_step_at(s, tempos, id));
    pq::first_exists(s.heads);
    let f = pq::first(s.heads);
    assert(s.heads.contains_key(f));
    if f != id {
        assert(pq::key_of(s.heads, f).before(pq::key_of(s.heads, id)));
        order::lemma_rank_orders(s.heads[f].0, s.heads[id].0);
    }
}

} // verus!

//! The life of a wait, from its first poll to its last.
use vstd::prelude::*;

use crate::context;
use crate::context::{BeatWaitFuture, FrameWaitFuture, TimeWaitFuture, WaitPhase};
use crate::engine;
use crate::flt::order;
use crate::flt::Flt;
use crate::frames;
use crate::kin;
use crate::pq;
use crate::rng;
use crate::scheduler::{SchedView, SchedulerMode, WaiterKind};
use crate::tempo;
use crate::tempo::TempoView;
use crate::world;
use crate::world::{CtxView, WorldView};

verus! {

/// From `w` to `v` a context began to wait: under the next number, for `waker`,
/// as the last of its waits. Nothing else of it changes, no other context
/// changes and no other wait; no task is queued and no time goes by.
pub open spec fn began(w: WorldView, v: WorldView, ctx: u64, kind: WaiterKind, waker: u64) -> bool {
    let id = w.sched.seq;
    let s = v.waits[id];
    let ws = v.ctxs[ctx].waiters;
    &&& v.waits.contains_key(id)
    &&& !s.done && !s.cancelled && s.waker == Some(waker)
    &&& forall|x: u64| x != id ==> v.waits.contains_key(x) == w.waits.contains_key(x)
    &&& forall|x: u64| x != id ==> #[trigger] v.waits[x] == w.waits[x]
    &&& ws.len() == w.ctxs[ctx].waiters.len() + 1
    &&& ws.last() == (id, kind)
    &&& ws.drop_last() == w.ctxs[ctx].waiters
    &&& v.ctxs[ctx] == CtxView { waiters: ws, ..w.ctxs[ctx] }
    &&& v.ctxs.dom() == w.ctxs.dom()
    &&& forall|k: u64| k != ctx ==> #[trigger] v.ctxs[k] == w.ctxs[k]
    &&& v.sched.seq == id + 1
    &&& v.sched.most_recent_desc_time == w.sched.most_recent_desc_time
    &&& v.sched.mode == w.sched.mode
    &&& v.sched.rate == w.sched.rate
    &&& v.sched.logical_anchor == w.sched.logical_anchor
    &&& v.sched.offline_now == w.sched.offline_now
    &&& v.tasks == w.tasks
    &&& v.tempos == w.tempos
    &&& v.rngs == w.rngs
    &&& v.barriers == w.barriers
    &&& v.barrier_waits == w.barrier_waits
    &&& v.fired == w.fired
}

/// The first poll of a wait for a time puts it in the queue, for that time or
/// for 0 if that is later.
pub proof fn first_poll_queues_for_the_time(w: WorldView, f: TimeWaitFuture, waker: u64)
    requires
        w.ctxs.contains_key(f.ctx.id),
        w.ctxs[f.ctx.id].id == f.ctx.id,
        !w.ctxs[f.ctx.id].canceled,
        w.sched.seq < u64::MAX,
        frames::apart(w.sched),
        f.phase is Fresh,
    ensures
        ({
            let (v, p, r) = w.time_polled(f, waker);
            let id = w.sched.seq;
            let q = v.sched.times;
            &&& r is None
            &&& p == (WaitPhase::Registered { id })
            &&& began(w, v, f.ctx.id, WaiterKind::Time, waker)
            &&& q.contains_key(id)
            &&& Flt::zero().at_most(f.target_time) ==> q[id].0 == f.target_time
            &&& f.target_time.less(Flt::zero()) ==> q[id].0 == Flt::zero()
            &&& q[id].1 == id
            &&& q[id].2.seq == id
            &&& q[id].2.target_time == q[id].0
            &&& forall|x: u64| x != id ==> q.contains_key(x) == w.sched.times.contains_key(x)
            &&& forall|x: u64| x != id ==> #[trigger] q[x] == w.sched.times[x]
            &&& v.sched.beats == w.sched.beats
            &&& v.sched.heads == w.sched.heads
            &&& v.sched.frames == w.sched.frames
        }),
{
    let v = w.time_polled(f, waker).0;
    assert(!w.sched.times.contains_key(w.sched.seq));
    assert(v.ctxs[f.ctx.id].waiters.drop_last() =~= w.ctxs[f.ctx.id].waiters);
    assert(v.ctxs.dom() =~= w.ctxs.dom());
}

/// The first poll of a wait for a beat puts it in the queue of its tempo, for
/// that beat.
pub proof fn first_poll_queues_for_the_beat(w: WorldView, f: BeatWaitFuture, waker: u64)
    requires
        w.ctxs.contains_key(f.ctx.id),
        w.ctxs[f.ctx.id].id == f.ctx.id,
        !w.ctxs[f.ctx.id].canceled,
        w.sched.seq < u64::MAX,
        frames::apart(w.sched),
        f.phase is Fresh,
    ensures
        ({
            let (v, p, r) = w.beat_polled(f, waker);
            let id = w.sched.seq;
            let k = f.tempo_id;
            let q = v.sched.beats_of(k);
            &&& r is None
            &&& p == (WaitPhase::Registered { id })
            &&& began(w, v, f.ctx.id, WaiterKind::Beat { tempo_id: k }, waker)
            &&& q.contains_key(id)
            &&& q[id].0 == f.target_beat
            &&& q[id].1 == id
            &&& q[id].2.target_beat == f.target_beat
            &&& forall|x: u64| x != id ==> q.contains_key(x) == w.sched.beats_of(k).contains_key(x)
            &&& forall|x: u64| x != id ==> #[trigger] q[x] == w.sched.beats_of(k)[x]
            &&& forall|t: u64| t != k ==> #[trigger] v.sched.beats_of(t) == w.sched.beats_of(t)
            &&& v.sched.times == w.sched.times
            &&& v.sched.frames == w.sched.frames
            &&& forall|t: u64|
                t != k ==> v.sched.heads.contains_key(t) == w.sched.heads.contains_key(t)
            &&& forall|t: u64| t != k ==> #[trigger] v.sched.heads[t] == w.sched.heads[t]
        }),
{
    let v = w.beat_polled(f, waker).0;
    assert(!w.sched.beats_of(f.tempo_id).contains_key(w.sched.seq));
    assert(v.ctxs[f.ctx.id].waiters.drop_last() =~= w.ctxs[f.ctx.id].waiters);
    assert(v.ctxs.dom() =~= w.ctxs.dom());
}

/// The first poll of a wait for the next frame puts it in the queue for that.
pub proof fn first_poll_queues_for_the_frame(
    w: WorldView,
    f: FrameWaitFuture,
    waker: u64,
    wall: Flt,
)
    requires
        w.ctxs.contains_key(f.ctx.id),
        w.ctxs[f.ctx.id].id == f.ctx.id,
        !w.ctxs[f.ctx.id].canceled,
        w.sched.seq < u64::MAX,
        f.phase is Fresh,
    ensures
        ({
            let (v, p, r) = w.frame_polled(f, waker, wall);
            let id = w.sched.seq;
            let q = v.sched.frames;
            &&& r is None
            &&& p == (WaitPhase::Registered { id })
            &&& began(w, v, f.ctx.id, WaiterKind::Frame, waker)
            &&& q.contains_key(id)
            &&& q[id].1 == id
            &&& forall|x: u64| x != id ==> q.contains_key(x) == w.sched.frames.contains_key(x)
            &&& forall|x: u64| x != id ==> #[trigger] q[x] == w.sched.frames[x]
            &&& v.sched.times == w.sched.times
            &&& v.sched.beats == w.sched.beats
            &&& v.sched.heads == w.sched.heads
        }),
{
    let v = w.frame_polled(f, waker, wall).0;
    assert(v.ctxs[f.ctx.id].waiters.drop_last() =~= w.ctxs[f.ctx.id].waiters);
    assert(v.ctxs.dom() =~= w.ctxs.dom());
}

/// A poll of a wait that still goes on changes nothing but the task to wake.
pub proof fn poll_in_between_changes_only_the_task(
    w: WorldView,
    ctx: u64,
    id: u64,
    kind: WaiterKind,
    waker: u64,
    t: Flt,
)
    requires
        w.waits.contains_key(id),
        !w.waits[id].done,
        !w.waits[id].cancelled,
    ensures
        ({
            let p = WaitPhase::Registered { id };
            let (v, q, r) = w.polled(ctx, p, kind, waker, t);
            &&& r is None
            &&& q == p
            &&& v.waits.dom() == w.waits.dom()
            &&& v.waits[id].waker == Some(waker)
            &&& !v.waits[id].done && !v.waits[id].cancelled
            &&& forall|x: u64| x != id ==> #[trigger] v.waits[x] == w.waits[x]
            &&& v == WorldView { waits: v.waits, ..w }
        }),
{
    let p = WaitPhase::Registered { id };
    let v = w.polled(ctx, p, kind, waker, t).0;
    assert(v.waits.dom() =~= w.waits.dom());
}

/// A wait that is over stays over: polled again, it gives the same answer. A wait
/// that failed changes nothing any more.
pub proof fn finished_wait_stays_finished(
    w: WorldView,
    ctx: u64,
    id: u64,
    kind: WaiterKind,
    waker: u64,
    t: Flt,
)
    ensures
        ({
            let (v, p, r) = w.polled(ctx, WaitPhase::Done { id }, kind, waker, t);
            &&& r == Some(Ok::<(), Seq<char>>(()))
            &&& p == (WaitPhase::Done { id })
            &&& v.waits == w.waits
            &&& v.tasks == w.tasks
        }),
        ({
            let (v, p, r) = w.polled(ctx, WaitPhase::Cancelled, kind, waker, t);
            &&& r is Some
            &&& r->Some_0 is Err
            &&& p is Cancelled
            &&& v == w
        }),
{
}

/// Only the first poll of a wait puts anything into a queue: later ones leave all
/// queues as they are.
pub proof fn later_polls_leave_the_queues(
    w: WorldView,
    f: TimeWaitFuture,
    g: BeatWaitFuture,
    h: FrameWaitFuture,
    waker: u64,
    wall: Flt,
)
    ensures
        !(f.phase is Fresh) ==> same_queues(w, w.time_polled(f, waker).0),
        !(g.phase is Fresh) ==> same_queues(w, w.beat_polled(g, waker).0),
        !(h.phase is Fresh) ==> same_queues(w, w.frame_polled(h, waker, wall).0),
        f.phase is Fresh && w.ctxs[f.ctx.id].canceled ==> same_queues(
            w,
            w.time_polled(f, waker).0,
        ),
        g.phase is Fresh && w.ctxs[g.ctx.id].canceled ==> same_queues(
            w,
            w.beat_polled(g, waker).0,
        ),
        h.phase is Fresh && w.ctxs[h.ctx.id].canceled ==> same_queues(
            w,
            w.frame_polled(h, waker, wall).0,
        ),
{
}

/// The queues of both hold the same waits, and as many numbers are used up.
pub open spec fn same_queues(w: WorldView, v: WorldView) -> bool {
    v.sched == SchedView { most_recent_desc_time: v.sched.most_recent_desc_time, ..w.sched }
}

/// That wait has another number.
pub open spec fn numbered_otherwise(id: u64) -> spec_fn((u64, WaiterKind)) -> bool {
    |x: (u64, WaiterKind)| x.0 != id
}

proof fn lemma_without_waiter(s: Seq<(u64, WaiterKind)>, id: u64)
    ensures
        world::without_waiter(s, id) == s.filter(numbered_otherwise(id)),
    decreases s.len(),
{
    reveal(Seq::filter);
    if s.len() > 0 {
        lemma_without_waiter(s.drop_last(), id);
    }
}

/// A wait that came due is over with the next poll: its context forgets it and
/// keeps its other waits in order, and moves to the time of the wait; that
/// moves up the latest time that any wait has reached. No other context
/// changes, no other wait, no queue and no task.
pub proof fn poll_ends_a_wait_that_came_due(
    w: WorldView,
    ctx: u64,
    id: u64,
    kind: WaiterKind,
    waker: u64,
    t: Flt,
)
    requires
        w.ctxs.contains_key(ctx),
        w.ctxs[ctx].id == ctx,
        w.waits.contains_key(id),
        w.waits[id].done,
        !w.waits[id].cancelled,
        !t.nan(),
        !w.sched.most_recent_desc_time.nan(),
    ensures
        ({
            let (v, q, r) = w.polled(ctx, WaitPhase::Registered { id }, kind, waker, t);
            let now = v.sched.most_recent_desc_time;
            let ws = v.ctxs[ctx].waiters;
            &&& r == Some(Ok::<(), Seq<char>>(()))
            &&& q == (WaitPhase::Done { id })
            &&& !v.waits.contains_key(id)
            &&& forall|x: u64| x != id ==> v.waits.contains_key(x) == w.waits.contains_key(x)
            &&& forall|x: u64| x != id ==> #[trigger] v.waits[x] == w.waits[x]
            &&& ws == w.ctxs[ctx].waiters.filter(numbered_otherwise(id))
            &&& v.ctxs[ctx] == CtxView { time: t, waiters: ws, ..w.ctxs[ctx] }
            &&& forall|k: u64| k != ctx ==> #[trigger] v.ctxs[k] == w.ctxs[k]
            &&& t.at_most(now)
            &&& w.sched.most_recent_desc_time.at_most(now)
            &&& now == t || now == w.sched.most_recent_desc_time
            &&& v.sched == SchedView { most_recent_desc_time: now, ..w.sched }
            &&& v.tasks == w.tasks
        }),
{
    lemma_without_waiter(w.ctxs[ctx].waiters, id);
}

/// A wait that was cancelled fails with the next poll, which changes nothing
/// but that it is forgotten. So does a wait that a cancelled context makes,
/// whose first poll queues its task at once.
pub proof fn poll_of_a_cancelled_wait_fails(
    w: WorldView,
    ctx: u64,
    id: u64,
    kind: WaiterKind,
    waker: u64,
    t: Flt,
)
    ensures
        w.waits.contains_key(id) && w.waits[id].cancelled ==> {
            let (v, q, r) = w.polled(ctx, WaitPhase::Registered { id }, kind, waker, t);
            &&& r is Some
            &&& r->Some_0 is Err
            &&& q is Cancelled
            &&& v == WorldView { waits: w.waits.remove(id), ..w }
        },
        w.ctxs[ctx].canceled ==> {
            let (v, q, r) = w.polled(ctx, WaitPhase::Fresh, kind, waker, t);
            &&& r is Some
            &&& r->Some_0 is Err
            &&& q is Cancelled
            &&& v == WorldView { tasks: v.tasks, ..w }
            &&& w.tasks.live.contains(waker) ==> v.tasks.ready.contains(waker)
            &&& v.tasks.live == w.tasks.live
        },
{
    let r = w.tasks.ready.push(waker);
    assert(r[w.tasks.ready.len() as int] == waker);
}

/// From `w` to `v` these waits came due, and no others: those that were pending
/// are done, and their tasks are queued.
pub open spec fn came_due(w: WorldView, v: WorldView, ids: Seq<u64>) -> bool {
    &&& v.waits.dom() == w.waits.dom()
    &&& forall|x: u64| #[trigger]
        w.waits.contains_key(x) ==> {
            let s = w.waits[x];
            &&& !ids.contains(x) || s.done || s.cancelled ==> v.waits[x] == s
            &&& ids.contains(x) && !s.done && !s.cancelled ==> {
                &&& v.waits[x].done
                &&& !v.waits[x].cancelled
                &&& s.waker matches Some(k) ==> w.tasks.live.contains(k) ==> v.tasks.ready.contains(
                    k,
                )
            }
        }
    &&& v.tasks.live == w.tasks.live
    &&& forall|k: u64| #[trigger] w.tasks.ready.contains(k) ==> v.tasks.ready.contains(k)
    &&& forall|k: u64| #[trigger]
        v.tasks.ready.contains(k) ==> w.tasks.ready.contains(k) || exists|x: u64| #[trigger]
            w.waits.contains_key(x) && ids.contains(x) && w.waits[x].waker == Some(k)
    &&& v == WorldView { waits: v.waits, tasks: v.tasks, ..w }
}

#[verifier::spinoff_prover]
#[verifier::rlimit(60)]
proof fn lemma_one_due(w: WorldView, u: WorldView, ids: Seq<u64>, id: u64)
    requires
        came_due(w, u, ids),
    ensures
        came_due(w, u.with_wait_ok(id), ids.push(id)),
{
    let v = u.with_wait_ok(id);
    let all = ids.push(id);
    assert forall|x: u64| all.contains(x) == (ids.contains(x) || x == id) by {
        if ids.contains(x) {
            let i = choose|i: int| 0 <= i < ids.len() && ids[i] == x;
            assert(all[i] == x);
        }
        if all.contains(x) && x != id {
            let i = choose|i: int| 0 <= i < all.len() && all[i] == x;
            assert(ids[i] == x);
        }
        assert(all[ids.len() as int] == id);
    }
    assert(v.waits.dom() =~= w.waits.dom());
    assert(u.waits.contains_key(id) == w.waits.contains_key(id)) by {
        assert(u.waits.dom().contains(id) == w.waits.dom().contains(id));
    }
    if u.waits.contains_key(id) {
        match u.waits[id].wakes() {
            Some(k) => {
                let r = u.tasks.ready.push(k);
                assert(r[u.tasks.ready.len() as int] == k);
                assert forall|j: u64| #[trigger] u.tasks.ready.contains(j) implies r.contains(j) by {
                    let i = choose|i: int| 0 <= i < u.tasks.ready.len() && u.tasks.ready[i] == j;
                    assert(r[i] == j);
                }
                assert forall|j: u64| #[trigger] r.contains(j) implies u.tasks.ready.contains(j)
                    || j == k by {
                    let i = choose|i: int| 0 <= i < r.len() && r[i] == j;
                    if i < u.tasks.ready.len() {
                        assert(u.tasks.ready[i] == j);
                    }
                }
                assert(w.waits[id].waker == Some(k));
            },
            None => {},
        }
    }
    assert forall|k: u64| #[trigger] v.tasks.ready.contains(k) implies w.tasks.ready.contains(k)
        || exists|x: u64| #[trigger]
        w.waits.contains_key(x) && all.contains(x) && w.waits[x].waker == Some(k) by {
        if u.tasks.ready.contains(k) {
            if !w.tasks.ready.contains(k) {
                let x = choose|x: u64| #[trigger]
                    w.waits.contains_key(x) && ids.contains(x) && w.waits[x].waker == Some(k);
                assert(all.contains(x));
            }
        } else {
            assert(w.waits.contains_key(id) && all.contains(id) && w.waits[id].waker == Some(k));
        }
    }
}

proof fn lemma_all_due(w: WorldView, ids: Seq<u64>)
    ensures
        came_due(w, w.with_all_ok(ids), ids),
    decreases ids.len(),
{
    if ids.len() > 0 {
        lemma_all_due(w, ids.drop_last());
        lemma_one_due(w, w.with_all_ok(ids.drop_last()), ids.drop_last(), ids.last());
        assert(ids.drop_last().push(ids.last()) =~= ids);
    }
}

/// A slice ends the waits that it takes from the queues, all of them and no
/// others: each is done and its task is queued.
pub proof fn slice_ends_what_it_takes(w: WorldView)
    ensures
        ({
            let (sched, ids) = w.sched.sliced(w.tempos.maps);
            came_due(WorldView { sched, ..w }, w.with_slice(), ids)
        }),
{
    let (sched, ids) = w.sched.sliced(w.tempos.maps);
    lemma_all_due(WorldView { sched, ..w }, ids);
}

/// A frame ends all waits for it and no others: each is done and its task is
/// queued. The other queues stay as they are.
pub proof fn frame_ends_all_that_wait_for_it(w: WorldView)
    requires
        frames::apart(w.sched),
    ensures
        ({
            let v = w.with_frame();
            let ids = pq::due(w.sched.frames, Flt::zero());
            &&& came_due(WorldView { sched: v.sched, ..w }, v, ids)
            &&& forall|x: u64| #[trigger] ids.contains(x) <==> w.sched.frames.contains_key(x)
            &&& forall|x: u64| !(#[trigger] v.sched.frames.contains_key(x))
            &&& v.sched == SchedView { frames: v.sched.frames, ..w.sched }
        }),
{
    let q = w.sched.frames;
    let ids = pq::due(q, Flt::zero());
    let less = WorldView { sched: SchedView { frames: Map::empty(), ..w.sched }, ..w };
    lemma_all_due(less, ids);
    pq::due_comes_in_order(q, Flt::zero());
    assert forall|x: u64| #[trigger] ids.contains(x) <==> q.contains_key(x) by {
        if ids.contains(x) {
            let i = choose|i: int| 0 <= i < ids.len() && ids[i] == x;
            assert(q.contains_key(ids[i]));
        }
        if q.contains_key(x) {
            assert(!q.is_empty());
            pq::first_exists(q);
            assert(q.contains_key(pq::first(q)));
            assert(q[x].0 == Flt::zero());
        }
    }
}

/// A slice for a time takes out of the queue of times the waits for that time
/// alone, and leaves all other queues as they are.
pub proof fn time_slice_leaves_the_others(s: SchedView, tempos: Map<u64, TempoView>)
    requires
        s.times.dom().finite(),
        pq::earliest(s.times).at_most(pq::earliest(s.heads)),
    ensures
        ({
            let (v, ids) = s.sliced(tempos);
            &&& forall|x: u64| #[trigger]
                v.times.contains_key(x) <==> s.times.contains_key(x) && s.times[x].0
                    != pq::earliest(s.times)
            &&& forall|x: u64| #[trigger] v.times.contains_key(x) ==> v.times[x] == s.times[x]
            &&& forall|x: u64| #[trigger]
                ids.contains(x) <==> s.times.contains_key(x) && !v.times.contains_key(x)
            &&& v == SchedView { times: v.times, ..s }
        }),
{
    let t = pq::earliest(s.times);
    let ids = pq::due(s.times, t);
    pq::due_comes_in_order(s.times, t);
    assert forall|x: u64| ids.contains(x) implies s.times.contains_key(x) && s.times[x].0 == t by {
        let i = choose|i: int| 0 <= i < ids.len() && ids[i] == x;
        assert(s.times.contains_key(ids[i]));
    }
}

/// A slice for a beat takes out of the queue of one tempo the waits for its
/// first beat alone. The queues of the other tempos, of times and of frames stay
/// as they are.
pub proof fn beat_slice_leaves_the_others(s: SchedView, tempos: Map<u64, TempoView>)
    requires
        !pq::earliest(s.times).at_most(pq::earliest(s.heads)),
        !s.heads.is_empty(),
        s.beats.contains_key(pq::first(s.heads)),
        !s.beats_of(pq::first(s.heads)).is_empty(),
        s.beats_of(pq::first(s.heads)).dom().finite(),
        s.head_due(tempos, pq::first(s.heads)).finite(),
    ensures
        ({
            let (v, ids) = s.sliced(tempos);
            let k = pq::first(s.heads);
            let q = s.beats_of(k);
            &&& forall|x: u64| #[trigger]
                v.beats_of(k).contains_key(x) <==> q.contains_key(x) && q[x].0 != pq::earliest(q)
            &&& forall|x: u64| #[trigger] v.beats_of(k).contains_key(x) ==> v.beats_of(k)[x] == q[x]
            &&& forall|x: u64| #[trigger]
                ids.contains(x) <==> q.contains_key(x) && !v.beats_of(k).contains_key(x)
            &&& forall|j: u64| j != k ==> #[trigger] v.beats_of(j) == s.beats_of(j)
            &&& forall|j: u64|
                j != k ==> v.heads.contains_key(j) == s.heads.contains_key(j)
            &&& forall|j: u64| j != k ==> #[trigger] v.heads[j] == s.heads[j]
            &&& v.times == s.times
            &&& v.frames == s.frames
            &&& v.most_recent_desc_time == s.most_recent_desc_time
            &&& v.offline_now == s.offline_now
        }),
{
    let k = pq::first(s.heads);
    let q = s.beats_of(k);
    let t = pq::earliest(q);
    let ids = pq::due(q, t);
    pq::due_comes_in_order(q, t);
    assert forall|x: u64| ids.contains(x) implies q.contains_key(x) && q[x].0 == t by {
        let i = choose|i: int| 0 <= i < ids.len() && ids[i] == x;
        assert(q.contains_key(ids[i]));
    }
    let v = s.sliced(tempos).0;
    assert(v.beats_of(k) == pq::rest(q, t));
}

/// The next event is the first wait for a time, or the first for a beat of some
/// tempo, whichever is due earlier; where both are due at once, the slice takes
/// those for the time.
pub proof fn next_event_is_the_next_slice(s: SchedView, t: Flt)
    requires
        s.next_event() == Some(t),
        !pq::earliest(s.times).nan(),
        !pq::earliest(s.heads).nan(),
    ensures
        t == pq::earliest(s.times) || t == pq::earliest(s.heads),
        t.at_most(pq::earliest(s.times)),
        t.at_most(pq::earliest(s.heads)),
        pq::earliest(s.times).at_most(pq::earliest(s.heads)) ==> t.val() == pq::earliest(
            s.times,
        ).val(),
        pq::earliest(s.heads).less(pq::earliest(s.times)) ==> t == pq::earliest(s.heads),
        t.finite(),
{
}

/// Something is pending as long as somebody waits, for whatever it is.
pub proof fn pending_means_somebody_waits(s: SchedView)
    ensures
        s.pending() <==> exists|id: u64, kind: WaiterKind| s.waiting(id, kind),
{
    if s.pending() {
        if !s.times.is_empty() {
            assert(s.times.dom().contains(s.times.dom().choose()));
            assert(s.waiting(s.times.dom().choose(), WaiterKind::Time));
        } else if !s.frames.is_empty() {
            assert(s.frames.dom().contains(s.frames.dom().choose()));
            assert(s.waiting(s.frames.dom().choose(), WaiterKind::Frame));
        } else {
            let k = choose|k: u64| #[trigger] s.beats.contains_key(k) && !s.beats[k].is_empty();
            let q = s.beats[k];
            assert(q.dom().contains(q.dom().choose()));
            assert(s.waiting(q.dom().choose(), WaiterKind::Beat { tempo_id: k }));
        }
    }
    if exists|id: u64, kind: WaiterKind| s.waiting(id, kind) {
        let (id, kind) = choose|id: u64, kind: WaiterKind| s.waiting(id, kind);
        match kind {
            WaiterKind::Time => {
                assert(s.times.dom().contains(id));
            },
            WaiterKind::Beat { tempo_id } => {
                assert(s.beats.contains_key(tempo_id));
                assert(s.beats[tempo_id].dom().contains(id));
            },
            WaiterKind::Frame => {
                assert(s.frames.dom().contains(id));
            },
        }
    }
}

/// From the first poll to the last: where no other wait is due as early, a wait
/// for a time ends with the next slice, and leaves its context exactly at that
/// time. Its task is queued in between.
#[verifier::spinoff_prover]
#[verifier::rlimit(60)]
pub proof fn wait_ends_when_its_time_comes(w: WorldView, f: TimeWaitFuture, waker: u64)
    requires
        w.ctxs.contains_key(f.ctx.id),
        w.ctxs[f.ctx.id].id == f.ctx.id,
        !w.ctxs[f.ctx.id].canceled,
        w.sched.seq < u64::MAX,
        frames::apart(w.sched),
        f.phase is Fresh,
        Flt::zero().at_most(f.target_time),
        w.ctxs[f.ctx.id].time.less(f.target_time),
        forall|x: u64| #[trigger]
            w.sched.times.contains_key(x) ==> f.target_time.less(w.sched.times[x].0),
        f.target_time.at_most(pq::earliest(w.sched.heads)),
    ensures
        ({
            let (v, p, _) = w.time_polled(f, waker);
            let u = v.with_slice();
            let (z, _, r) = u.time_polled(TimeWaitFuture { phase: p, ..f }, waker);
            &&& w.tasks.live.contains(waker) ==> u.tasks.ready.contains(waker)
            &&& r == Some(Ok::<(), Seq<char>>(()))
            &&& z.ctxs[f.ctx.id].time == f.target_time
            &&& forall|x: u64|
                z.sched.times.contains_key(x) == w.sched.times.contains_key(x)
        }),
{
    let (v, p, _) = w.time_polled(f, waker);
    let id = w.sched.seq;
    let q = v.sched.times;
    first_poll_queues_for_the_time(w, f, waker);
    slice_ends_what_it_takes(v);
    let t = f.target_time;
    assert(q.dom() =~= w.sched.times.dom().insert(id));
    assert(pq::is_first(q, id)) by {
        assert forall|o: u64| #[trigger] q.contains_key(o) && o != id implies pq::key_of(
            q,
            id,
        ).before(pq::key_of(q, o)) by {
            assert(w.sched.times.contains_key(o));
            assert(t.less(w.sched.times[o].0));
            if w.sched.times[o].0.rank() <= t.rank() {
                order::lemma_rank_orders(w.sched.times[o].0, t);
            }
        }
    }
    pq::first_exists(q);
    pq::first_is_unique(q, id, pq::first(q));
    assert(pq::earliest(q) == t);
    pq::due_comes_in_order(q, t);
    let ids = pq::due(q, t);
    assert(ids.contains(id));
    assert(v.sched.sliced(v.tempos.maps) == (
        SchedView { times: pq::rest(q, t), ..v.sched },
        ids,
    ));
    let u = v.with_slice();
    assert(u.waits.contains_key(id)) by {
        assert(v.waits.contains_key(id));
        assert(u.waits.dom().contains(id));
    }
    assert(u.waits[id].done && !u.waits[id].cancelled);
    assert(u.ctxs == v.ctxs);
    assert(u.sched.times == pq::rest(q, t));
    assert forall|x: u64| u.sched.times.contains_key(x) == w.sched.times.contains_key(x) by {
        assert(pq::rest(q, t).contains_key(x) == (q.contains_key(x) && !ids.contains(x)));
        if ids.contains(x) {
            let i = choose|i: int| 0 <= i < ids.len() && ids[i] == x;
            assert(q.contains_key(ids[i]) && q[ids[i]].0 == t);
            if x != id {
                assert(w.sched.times.contains_key(x));
                assert(false);
            }
        }
    }
}

/// The time from which a wait counts is the time of its context or the latest
/// that any wait has reached, whichever is later.
pub proof fn base_is_the_later_time(w: WorldView, id: u64)
    requires
        !w.ctxs[id].time.nan(),
        !w.sched.most_recent_desc_time.nan(),
    ensures
        w.ctxs[id].time.at_most(w.base(id)),
        w.sched.most_recent_desc_time.at_most(w.base(id)),
        w.base(id) == w.ctxs[id].time || w.base(id) == w.sched.most_recent_desc_time,
{
    order::larger_bounds(w.sched.most_recent_desc_time, w.ctxs[id].time);
}

/// Setting the tempo of a context takes effect at the latest time that any wait
/// has reached, and from then on. No other tempo changes, nor any context.
pub proof fn set_tempo_takes_effect_now(w: WorldView, id: u64, bpm: Flt, u: Flt)
    requires
        w.tempos.maps.contains_key(w.ctxs[id].tempo),
        tempo::in_order(w.tempos.maps[w.ctxs[id].tempo].segs),
        Flt::zero().at_most(w.sched.most_recent_desc_time),
        w.sched.most_recent_desc_time.at_most(u),
        bpm.finite(),
        Flt::zero().less(bpm),
    ensures
        ({
            let v = w.with_bpm(id, bpm);
            let k = w.ctxs[id].tempo;
            let now = w.sched.most_recent_desc_time;
            &&& v.ctxs == w.ctxs
            &&& tempo::bpm_at(v.tempos.maps[k].segs, u) == bpm
            &&& tempo::bpm_at(v.tempos.maps[k].segs, now) == bpm
            &&& v.tempos.maps[k].id == w.tempos.maps[k].id
            &&& w.tempos.maps[k].version < u64::MAX ==> v.tempos.maps[k].version
                == w.tempos.maps[k].version + 1
            &&& forall|j: u64| j != k ==> #[trigger] v.tempos.maps[j] == w.tempos.maps[j]
            &&& v.waits == w.waits
            &&& v.tasks == w.tasks
            &&& v.sched.times == w.sched.times
            &&& v.sched.beats == w.sched.beats
            &&& v.sched.frames == w.sched.frames
            &&& v.sched.most_recent_desc_time == now
        }),
{
    let now = w.sched.most_recent_desc_time;
    assert(now.larger(Flt::zero()) == now);
    tempo::set_tempo_holds(w.tempos.maps[w.ctxs[id].tempo].segs, bpm, now, u);
}

/// A ramp of the tempo of a context starts at the latest time that any wait has
/// reached, and has reached its target `dur` seconds later.
pub proof fn ramp_ends_after_its_length(w: WorldView, id: u64, bpm: Flt, dur: Flt, u: Flt)
    requires
        w.tempos.maps.contains_key(w.ctxs[id].tempo),
        tempo::in_order(w.tempos.maps[w.ctxs[id].tempo].segs),
        Flt::zero().at_most(w.sched.most_recent_desc_time),
        w.sched.most_recent_desc_time.plus(dur).at_most(u),
        bpm.finite(),
        Flt::zero().less(bpm),
        Flt::zero().less(dur),
    ensures
        ({
            let v = w.with_ramp(id, bpm, dur);
            let k = w.ctxs[id].tempo;
            &&& v.ctxs == w.ctxs
            &&& tempo::bpm_at(v.tempos.maps[k].segs, u) == bpm
            &&& forall|j: u64| j != k ==> #[trigger] v.tempos.maps[j] == w.tempos.maps[j]
            &&& v.waits == w.waits
            &&& v.tasks == w.tasks
            &&& v.sched.times == w.sched.times
            &&& v.sched.beats == w.sched.beats
            &&& v.sched.frames == w.sched.frames
        }),
{
    let now = w.sched.most_recent_desc_time;
    assert(now.larger(Flt::zero()) == now);
    tempo::ramp_reaches_target(w.tempos.maps[w.ctxs[id].tempo].segs, bpm, dur, now, u);
}

/// The generators after some draws of a context, and what was drawn.
pub open spec fn draws(w: WorldView, id: u64, n: nat) -> WorldView
    decreases n,
{
    if n == 0 {
        w
    } else {
        draws(w, id, (n - 1) as nat).drawn(id).0
    }
}

/// What a context draws depends on the state of its generator alone, which goes
/// up by the same odd number with every draw. Draws change nothing else, and no
/// other generator.
pub proof fn draws_step_through_the_states(w: WorldView, id: u64, n: nat)
    requires
        w.rngs.contains_key(w.ctxs[id].rng),
    ensures
        ({
            let v = draws(w, id, n);
            let g = w.ctxs[id].rng;
            let state = (w.rngs[g] + n * 0x9e3779b97f4a7c15) % 0x1_0000_0000_0000_0000;
            &&& v.rngs[g] as int == state
            &&& v.rngs.dom() == w.rngs.dom()
            &&& forall|k: u64| k != g ==> #[trigger] v.rngs[k] == w.rngs[k]
            &&& v == WorldView { rngs: v.rngs, ..w }
        }),
    decreases n,
{
    let g = w.ctxs[id].rng;
    let m: int = 0x1_0000_0000_0000_0000;
    let c: int = 0x9e3779b97f4a7c15;
    let s = w.rngs[g] as int;
    if n == 0 {
        assert(n * c == 0) by (nonlinear_arith)
            requires
                n == 0,
        ;
        assert(s % m == s) by {
            vstd::arithmetic::div_mod::lemma_small_mod(s as nat, m as nat);
        }
    } else {
        let k = (n - 1) as nat;
        draws_step_through_the_states(w, id, k);
        let u = draws(w, id, k);
        let v = draws(w, id, n);
        let a = s + k * c;
        assert(n * c == k * c + c) by (nonlinear_arith)
            requires
                n == k + 1,
        ;
        assert(u.rngs[g] as int == a % m);
        assert(v.rngs[g] as int == (a % m + c) % m) by {
            let x = u.rngs[g];
            assert(rng::advanced(x) as int == (x + c) % m) by {
                if x + c < m {
                    vstd::arithmetic::div_mod::lemma_small_mod((x + c) as nat, m as nat);
                } else {
                    vstd::arithmetic::div_mod::lemma_small_mod((x + c - m) as nat, m as nat);
                    vstd::arithmetic::div_mod::lemma_mod_sub_multiples_vanish(x + c, m);
                }
            }
        }
        vstd::arithmetic::div_mod::lemma_add_mod_noop(a, c, m);
        assert((a % m + c % m) % m == (a + c) % m);
        vstd::arithmetic::div_mod::lemma_small_mod(c as nat, m as nat);
        assert(v.rngs.dom() =~= w.rngs.dom());
    }
}

/// What is drawn is made from the state in which the draw leaves the generator,
/// so contexts that share a generator never draw from one state twice in a row.
pub proof fn draw_is_made_from_the_new_state(w: WorldView, id: u64)
    requires
        w.rngs.contains_key(w.ctxs[id].rng),
    ensures
        ({
            let (v, x) = w.drawn(id);
            let g = w.ctxs[id].rng;
            &&& x == rng::unit(rng::mixed(v.rngs[g]))
            &&& v.rngs[g] != w.rngs[g]
        }),
{
}

/// A wait for a frame that came due leaves its context at the time on the clock,
/// at its own time or at the latest that any wait has reached, whichever is
/// latest.
pub proof fn frame_wait_ends_at_the_clock(
    w: WorldView,
    f: FrameWaitFuture,
    waker: u64,
    wall: Flt,
)
    requires
        w.ctxs.contains_key(f.ctx.id),
        w.ctxs[f.ctx.id].id == f.ctx.id,
        w.state_of(f.phase).done,
        !w.state_of(f.phase).cancelled,
        !w.ctxs[f.ctx.id].time.nan(),
        !w.sched.now(wall).nan(),
        !w.sched.most_recent_desc_time.nan(),
    ensures
        ({
            let (v, _, r) = w.frame_polled(f, waker, wall);
            let t = v.ctxs[f.ctx.id].time;
            let own = w.ctxs[f.ctx.id].time;
            let clock = w.sched.now(wall);
            let latest = w.sched.most_recent_desc_time;
            &&& r == Some(Ok::<(), Seq<char>>(()))
            &&& own.at_most(t)
            &&& clock.at_most(t)
            &&& latest.at_most(t)
            &&& t == own || t == clock || t == latest
            &&& t.at_most(v.sched.most_recent_desc_time)
        }),
{
}

/// That handler is another one.
pub open spec fn is_another(id: u64) -> spec_fn(u64) -> bool {
    |h: u64| h != id
}

proof fn lemma_without_handler(s: Seq<u64>, id: u64)
    ensures
        context::without_handler(s, id) == s.filter(is_another(id)),
    decreases s.len(),
{
    reveal(Seq::filter);
    if s.len() > 0 {
        lemma_without_handler(s.drop_last(), id);
    }
}

/// A cancel handler that is added to a context is the last that runs on its
/// cancellation; on a cancelled one it runs at once. One that is taken back
/// does not run; the others stay, in order.
pub proof fn handlers_come_and_go(w: WorldView, ctx: u64, id: u64)
    requires
        w.ctxs.contains_key(ctx),
        w.ctxs[ctx].id == ctx,
        w.next_handler < u64::MAX,
    ensures
        ({
            let v = w.with_handler(ctx);
            let h = w.next_handler;
            &&& v.next_handler == h + 1
            &&& !w.ctxs[ctx].canceled ==> {
                &&& v.ctxs[ctx].handlers == w.ctxs[ctx].handlers + seq![h]
                &&& v.ctxs[ctx] == CtxView {
                    handlers: v.ctxs[ctx].handlers,
                    ..w.ctxs[ctx]
                }
                &&& v.fired == w.fired
            }
            &&& w.ctxs[ctx].canceled ==> v.fired == w.fired + seq![h] && v.ctxs == w.ctxs
            &&& forall|k: u64| k != ctx ==> #[trigger] v.ctxs[k] == w.ctxs[k]
        }),
        ({
            let v = w.with_handler_dropped(ctx, id);
            let hs = v.ctxs[ctx].handlers;
            &&& hs == w.ctxs[ctx].handlers.filter(is_another(id))
            &&& v.ctxs[ctx] == CtxView { handlers: hs, ..w.ctxs[ctx] }
            &&& forall|k: u64| k != ctx ==> #[trigger] v.ctxs[k] == w.ctxs[k]
            &&& v == WorldView { ctxs: v.ctxs, ..w }
        }),
{
    lemma_without_handler(w.ctxs[ctx].handlers, id);
    let h = w.next_handler;
    assert(w.ctxs[ctx].handlers.push(h) =~= w.ctxs[ctx].handlers + seq![h]);
    assert(w.fired.push(h) =~= w.fired + seq![h]);
}

/// A context without children that is cancelled hands out its own handlers, in
/// the order in which they were added, after those that were handed out before,
/// and no others.
pub proof fn handlers_run_in_order(w: WorldView, id: u64)
    requires
        w.ctxs.contains_key(id),
        w.ctxs[id].id == id,
        !w.ctxs[id].canceled,
        w.ctxs[id].children.len() == 0,
    ensures
        w.cancelled(id).fired == w.fired + w.ctxs[id].handlers,
        w.cancelled(id).ctxs[id].handlers.len() == 0,
{
    lemma_quiet_waiters(w.with_mark(id), w.ctxs[id].waiters);
}

/// The handlers of the first `n` of these contexts, one context after the other.
pub open spec fn handlers_of(w: WorldView, ids: Seq<u64>, n: nat) -> Seq<u64>
    decreases n,
{
    if n == 0 {
        Seq::empty()
    } else {
        handlers_of(w, ids, (n - 1) as nat) + w.ctxs[ids[n - 1]].handlers
    }
}

/// Where a context with children is cancelled, its own handlers run first, then
/// those of its children, the oldest child first.
pub proof fn handlers_run_from_the_top_down(w: WorldView, id: u64)
    requires
        forall|k: u64| #[trigger] w.ctxs.contains_key(k) ==> w.ctxs[k].id == k,
        w.ctxs.contains_key(id),
        !w.ctxs[id].canceled,
        w.ctxs[id].children.no_duplicates(),
        forall|i: int|
            0 <= i < w.ctxs[id].children.len() ==> {
                let k = #[trigger] w.ctxs[id].children[i];
                id < k && w.ctxs.contains_key(k) && !w.ctxs[k].canceled
                    && w.ctxs[k].children.len() == 0
            },
    ensures
        ({
            let kids = w.ctxs[id].children;
            w.cancelled(id).fired == w.fired + w.ctxs[id].handlers + handlers_of(
                w,
                kids,
                kids.len(),
            )
        }),
{
    let c = w.ctxs[id];
    let u = w.with_mark(id).with_waiters_cancelled(c.waiters);
    lemma_quiet_waiters(w.with_mark(id), c.waiters);
    lemma_children_in_turn(w, u, id, c.children, c.children.len());
}

proof fn lemma_children_in_turn(w: WorldView, u: WorldView, id: u64, kids: Seq<u64>, n: nat)
    requires
        n <= kids.len(),
        kids.no_duplicates(),
        u.fired == w.fired + w.ctxs[id].handlers,
        forall|k: u64| #[trigger] u.ctxs.contains_key(k) == w.ctxs.contains_key(k),
        forall|k: u64| k != id ==> #[trigger] u.ctxs[k] == w.ctxs[k],
        forall|k: u64| #[trigger] w.ctxs.contains_key(k) ==> w.ctxs[k].id == k,
        forall|i: int|
            0 <= i < kids.len() ==> {
                let k = #[trigger] kids[i];
                id < k && w.ctxs.contains_key(k) && !w.ctxs[k].canceled
                    && w.ctxs[k].children.len() == 0
            },
    ensures
        ({
            let v = u.with_children_cancelled(id, kids, n);
            &&& v.fired == w.fired + w.ctxs[id].handlers + handlers_of(w, kids, n)
            &&& forall|k: u64| #[trigger] v.ctxs.contains_key(k) == w.ctxs.contains_key(k)
            &&& forall|i: int| n <= i < kids.len() ==> v.ctxs[#[trigger] kids[i]] == w.ctxs[kids[i]]
        }),
    decreases n,
{
    if n == 0 {
        assert(w.fired + w.ctxs[id].handlers + Seq::<u64>::empty() =~= w.fired
            + w.ctxs[id].handlers);
        assert forall|i: int| 0 <= i < kids.len() implies u.ctxs[#[trigger] kids[i]]
            == w.ctxs[kids[i]] by {
            assert(id < kids[i]);
        }
    } else {
        let m = (n - 1) as nat;
        lemma_children_in_turn(w, u, id, kids, m);
        let v = u.with_children_cancelled(id, kids, m);
        let k = kids[n - 1];
        assert(v.ctxs[k] == w.ctxs[k]);
        assert(v.ctxs.contains_key(k));
        handlers_run_in_order(v, k);
        lemma_quiet_waiters(v.with_mark(k), v.ctxs[k].waiters);
        assert(w.fired + w.ctxs[id].handlers + handlers_of(w, kids, m) + w.ctxs[k].handlers
            =~= w.fired + w.ctxs[id].handlers + handlers_of(w, kids, n));
    }
}

/// From `w` to `v` some waits were settled, and the tasks of all of these are
/// queued. The other waits stay as they are, and no task leaves the queue.
pub open spec fn told(w: WorldView, v: WorldView) -> bool {
    &&& forall|x: u64| #[trigger] v.waits.contains_key(x) == w.waits.contains_key(x)
    &&& forall|x: u64| #[trigger]
        w.waits.contains_key(x) ==> {
            let s = w.waits[x];
            ||| v.waits[x] == s
            ||| {
                &&& !s.settled()
                &&& v.waits[x].settled()
                &&& s.waker matches Some(k) ==> w.tasks.live.contains(k) ==> v.tasks.ready.contains(
                    k,
                )
            }
        }
    &&& v.tasks.live == w.tasks.live
    &&& forall|k: u64| #[trigger] w.tasks.ready.contains(k) ==> v.tasks.ready.contains(k)
}

proof fn lemma_told_chain(a: WorldView, b: WorldView, c: WorldView)
    requires
        told(a, b),
        told(b, c),
    ensures
        told(a, c),
{
    assert forall|x: u64| #[trigger] a.waits.contains_key(x) implies {
        let s = a.waits[x];
        ||| c.waits[x] == s
        ||| {
            &&& !s.settled()
            &&& c.waits[x].settled()
            &&& s.waker matches Some(k) ==> a.tasks.live.contains(k) ==> c.tasks.ready.contains(k)
        }
    } by {
        assert(b.waits.contains_key(x));
    }
    assert forall|x: u64| #[trigger] c.waits.contains_key(x) == a.waits.contains_key(x) by {
        assert(b.waits.contains_key(x) == a.waits.contains_key(x));
    }
}

proof fn lemma_one_told(w: WorldView, id: u64, kind: WaiterKind)
    ensures
        told(w, w.with_waiter_cancelled(id, kind)),
{
    if w.waits.contains_key(id) {
        match w.waits[id].wakes() {
            Some(k) => {
                let r = w.tasks.ready.push(k);
                assert(r[w.tasks.ready.len() as int] == k);
                assert forall|j: u64| #[trigger] w.tasks.ready.contains(j) implies r.contains(j) by {
                    let i = choose|i: int| 0 <= i < w.tasks.ready.len() && w.tasks.ready[i] == j;
                    assert(r[i] == j);
                }
            },
            None => {},
        }
    }
}

proof fn lemma_waiters_told(w: WorldView, ws: Seq<(u64, WaiterKind)>)
    ensures
        told(w, w.with_waiters_cancelled(ws)),
    decreases ws.len(),
{
    if ws.len() > 0 {
        let u = w.with_waiters_cancelled(ws.drop_last());
        lemma_waiters_told(w, ws.drop_last());
        lemma_one_told(u, ws.last().0, ws.last().1);
        lemma_told_chain(w, u, w.with_waiters_cancelled(ws));
    }
}

/// Nobody is left waiting for a wait that was cancelled: the task of every wait
/// that a cancellation settles is queued.
pub proof fn cancel_tells_whoever_waits(w: WorldView, id: u64)
    ensures
        told(w, w.cancelled(id)),
    decreases u64::MAX - id, w.ctxs[id].children.len() + 1,
{
    if w.ctxs.contains_key(id) && !w.ctxs[id].canceled {
        let c = w.ctxs[id];
        let m = w.with_mark(id);
        let u = m.with_waiters_cancelled(c.waiters);
        lemma_waiters_told(m, c.waiters);
        assert(told(w, u));
        lemma_children_told(u, id, c.children, c.children.len());
        lemma_told_chain(w, u, u.with_children_cancelled(id, c.children, c.children.len()));
    }
}

proof fn lemma_children_told(w: WorldView, id: u64, kids: Seq<u64>, n: nat)
    ensures
        told(w, w.with_children_cancelled(id, kids, n)),
    decreases u64::MAX - id, n,
{
    if n > 0 {
        let m = (n - 1) as nat;
        lemma_children_told(w, id, kids, m);
        let v = w.with_children_cancelled(id, kids, m);
        let k = kids[n - 1];
        if id < k {
            cancel_tells_whoever_waits(v, k);
            lemma_told_chain(w, v, v.cancelled(k));
        }
    }
}

/// Cancellation reaches every wait below: of each context that hangs below the
/// cancelled one by contexts that are not cancelled, every wait that is queued and
/// pending is cancelled, and the task of it is queued.
pub proof fn cancel_wakes_all_below(w: WorldView, id: u64, k: u64, i: int)
    requires
        w.wf(),
        kin::tidy(w.ctxs, w.sched.seq),
        w.ctxs.contains_key(id),
        w.ctxs.contains_key(k),
        kin::live_below(w.ctxs, k, id),
        !w.ctxs[k].canceled,
        0 <= i < w.ctxs[k].waiters.len(),
    ensures
        ({
            let (x, kind) = w.ctxs[k].waiters[i];
            let v = w.cancelled(id);
            w.sched.waiting(x, kind) && w.waits.contains_key(x) && !w.waits[x].settled() ==> {
                &&& v.waits.contains_key(x)
                &&& v.waits[x].cancelled
                &&& !v.sched.waiting(x, kind)
                &&& w.waits[x].waker matches Some(t) ==> w.tasks.live.contains(t)
                    ==> v.tasks.ready.contains(t)
            }
        }),
{
    kin::cancel_reaches_all_below(w, id, k);
    cancel_tells_whoever_waits(w, id);
    let (x, kind) = w.ctxs[k].waiters[i];
    assert(w.waits.contains_key(x) ==> w.cancelled(id).waits.contains_key(x));
}

proof fn lemma_quiet_waiters(w: WorldView, ws: Seq<(u64, WaiterKind)>)
    ensures
        w.with_waiters_cancelled(ws).ctxs == w.ctxs,
        w.with_waiters_cancelled(ws).fired == w.fired,
    decreases ws.len(),
{
    if ws.len() > 0 {
        lemma_quiet_waiters(w, ws.drop_last());
    }
}

/// A new engine has one root and nothing else: no task, no wait, no barrier. The
/// root stands at time 0, is not cancelled, and has the tempo and the seed that
/// the engine was made with; from time 0 on that tempo holds. The clock shows 0
/// and runs at the rate that the engine was made with.
pub proof fn engines_start_at_zero(
    mode: SchedulerMode,
    bpm: Flt,
    seed: Seq<char>,
    rate: Flt,
    u: Flt,
)
    requires
        bpm.finite(),
        Flt::zero().less(bpm),
        rate.finite(),
        Flt::zero().less(rate),
    ensures
        ({
            let w = engine::launched(mode, bpm, seed, rate);
            let r = w.ctxs[0];
            &&& forall|k: u64| #[trigger] w.ctxs.contains_key(k) <==> k == 0
            &&& r.id == 0
            &&& r.time == Flt::zero()
            &&& r.start_time == Flt::zero()
            &&& !r.canceled
            &&& r.waiters.len() == 0
            &&& r.children.len() == 0
            &&& r.handlers.len() == 0
            &&& r.parent is None
            &&& r.root == Some(0u64)
            &&& r.completion is None
            &&& r.seed == seed
            &&& r.forks == 0
            &&& w.rngs.contains_key(r.rng)
            &&& w.rngs[r.rng] == context::seeded(seed)
            &&& w.tempos.maps.contains_key(r.tempo)
            &&& tempo::bpm_at(w.tempos.maps[r.tempo].segs, u) == bpm
            &&& w.tasks.ready.len() == 0
            &&& forall|k: u64| !(#[trigger] w.tasks.live.contains(k))
            &&& forall|k: u64| !(#[trigger] w.waits.contains_key(k))
            &&& w.barriers.len() == 0
            &&& w.fired.len() == 0
            &&& !w.sched.pending()
            &&& w.sched.mode == mode
            &&& mode is Realtime ==> w.sched.rate == rate
            &&& w.sched.offline_now == Flt::zero()
            &&& w.sched.now(Flt::zero()).val() == 0
            &&& w.sched.most_recent_desc_time == Flt::zero()
        }),
{
    let w = engine::launched(mode, bpm, seed, rate);
    order::lemma_zero();
    order::lemma_one();
    assert(tempo::positive(bpm) == bpm);
    assert(tempo::positive(rate) == rate);
    vstd::arithmetic::power2::lemma_pow2_pos(1074);
    order::lemma_zero_times(Flt::one());
    order::lemma_zero_times(rate);
    order::lemma_plus_zero(Flt::zero());
}

} // verus!

//! Waits for the next frame: nothing but a frame lets them come due.
use vstd::prelude::*;

use crate::barrier;
use crate::barrier::{BarrierView, BarrierWaiter};
use crate::context;
use crate::context::{BeatWaitFuture, FrameWaitFuture, TimeWaitFuture, WaitPhase};
use crate::engine;
use crate::flt::Flt;
use crate::kin;
use crate::laws;
use crate::moves;
use crate::moves::{BarrierMove, Move, OwnMove, TaskMove, TreeMove, WaitMove};
use crate::pq;
use crate::scheduler::{SchedView, SchedulerMode, WaiterKind};
use crate::tempo::TempoView;
use crate::world;
use crate::world::WorldView;

verus! {

/// The numbers of waits are used up in order, and a wait for the next frame
/// stands in no other queue.
pub open spec fn apart(s: SchedView) -> bool {
    &&& s.times.dom().finite()
    &&& s.frames.dom().finite()
    &&& forall|t: u64| #[trigger] s.beats.contains_key(t) ==> s.beats[t].dom().finite()
    &&& forall|x: u64| #[trigger] s.times.contains_key(x) ==> x < s.seq
    &&& forall|t: u64, x: u64| #[trigger] s.beats_of(t).contains_key(x) ==> x < s.seq
    &&& forall|x: u64| #[trigger]
        s.frames.contains_key(x) ==> {
            &&& x < s.seq
            &&& s.frames[x].0 == Flt::zero()
            &&& !s.times.contains_key(x)
            &&& forall|t: u64| !(#[trigger] s.beats_of(t).contains_key(x))
        }
}

/// The wait is queued for the next frame, and nothing has settled it.
pub open spec fn pending(w: WorldView, x: u64) -> bool {
    &&& w.sched.frames.contains_key(x)
    &&& w.waits.contains_key(x)
    &&& !w.waits[x].settled()
}

/// The wait was cancelled.
pub open spec fn called_off(w: WorldView, x: u64) -> bool {
    w.waits.contains_key(x) && w.waits[x].cancelled
}

/// The queues of `b` hold what those of `a` hold, or some of it.
spec fn fewer(a: SchedView, b: SchedView) -> bool {
    &&& a.seq <= b.seq
    &&& forall|x: u64| #[trigger] b.times.contains_key(x) ==> a.times.contains_key(x)
    &&& forall|t: u64, x: u64| #[trigger]
        b.beats_of(t).contains_key(x) ==> a.beats_of(t).contains_key(x)
    &&& forall|x: u64| #[trigger]
        b.frames.contains_key(x) ==> a.frames.contains_key(x) && b.frames[x] == a.frames[x]
}

proof fn lemma_fewer(a: SchedView, b: SchedView)
    requires
        apart(a),
        fewer(a, b),
    ensures
        apart(b),
{
    vstd::set_lib::lemma_len_subset(b.times.dom(), a.times.dom());
    vstd::set_lib::lemma_len_subset(b.frames.dom(), a.frames.dom());
    assert forall|t: u64| #[trigger] b.beats.contains_key(t) implies b.beats[t].dom().finite() by {
        assert(b.beats_of(t) == b.beats[t]);
        assert forall|x: u64| b.beats[t].dom().contains(x) implies a.beats_of(t).dom().contains(
            x,
        ) by {
            assert(b.beats_of(t).contains_key(x));
        }
        if a.beats.contains_key(t) {
            assert(a.beats[t].dom().finite());
        } else {
            assert(a.beats_of(t).dom() =~= Set::empty());
        }
        vstd::set_lib::lemma_len_subset(b.beats[t].dom(), a.beats_of(t).dom());
    }
}

/// The same queues, and the same waits.
spec fn quiet(a: WorldView, b: WorldView) -> bool {
    &&& a.sched.seq == b.sched.seq
    &&& a.sched.times == b.sched.times
    &&& a.sched.beats == b.sched.beats
    &&& a.sched.frames == b.sched.frames
    &&& a.waits == b.waits
}

proof fn lemma_quiet(a: WorldView, b: WorldView)
    requires
        apart(a.sched),
        quiet(a, b),
    ensures
        apart(b.sched),
{
    assert forall|t: u64| #[trigger] b.sched.beats_of(t) == a.sched.beats_of(t) by {}
    lemma_fewer(a.sched, b.sched);
}

proof fn lemma_without(s: SchedView, tempos: Map<u64, TempoView>, id: u64, kind: WaiterKind)
    ensures
        fewer(s, s.without(tempos, id, kind)),
{
    let r = s.without(tempos, id, kind);
    assert forall|t: u64, x: u64| #[trigger] r.beats_of(t).contains_key(x) implies s.beats_of(
        t,
    ).contains_key(x) by {}
}

/// After a waiter was cancelled.
proof fn lemma_waiter_cancelled(w: WorldView, id: u64, kind: WaiterKind, x: u64)
    requires
        apart(w.sched),
        pending(w, x) || called_off(w, x),
    ensures
        apart(w.with_waiter_cancelled(id, kind).sched),
        pending(w.with_waiter_cancelled(id, kind), x) || called_off(
            w.with_waiter_cancelled(id, kind),
            x,
        ),
{
    lemma_without(w.sched, w.tempos.maps, id, kind);
    lemma_fewer(w.sched, w.sched.without(w.tempos.maps, id, kind));
}

proof fn lemma_waiters_cancelled(w: WorldView, ws: Seq<(u64, WaiterKind)>, x: u64)
    requires
        apart(w.sched),
        pending(w, x) || called_off(w, x),
    ensures
        apart(w.with_waiters_cancelled(ws).sched),
        pending(w.with_waiters_cancelled(ws), x) || called_off(w.with_waiters_cancelled(ws), x),
    decreases ws.len(),
{
    if ws.len() > 0 {
        lemma_waiters_cancelled(w, ws.drop_last(), x);
        let v = w.with_waiters_cancelled(ws.drop_last());
        lemma_waiter_cancelled(v, ws.last().0, ws.last().1, x);
    }
}

proof fn lemma_cancelled(w: WorldView, id: u64, x: u64)
    requires
        apart(w.sched),
        pending(w, x) || called_off(w, x),
    ensures
        apart(w.cancelled(id).sched),
        pending(w.cancelled(id), x) || called_off(w.cancelled(id), x),
    decreases u64::MAX - id, w.ctxs[id].children.len() + 1,
{
    if w.ctxs.contains_key(id) && !w.ctxs[id].canceled {
        let c = w.ctxs[id];
        lemma_waiters_cancelled(w.with_mark(id), c.waiters, x);
        lemma_children_cancelled(
            w.with_mark(id).with_waiters_cancelled(c.waiters),
            id,
            c.children,
            c.children.len(),
            x,
        );
    }
}

proof fn lemma_children_cancelled(w: WorldView, id: u64, children: Seq<u64>, n: nat, x: u64)
    requires
        apart(w.sched),
        pending(w, x) || called_off(w, x),
    ensures
        apart(w.with_children_cancelled(id, children, n).sched),
        pending(w.with_children_cancelled(id, children, n), x) || called_off(
            w.with_children_cancelled(id, children, n),
            x,
        ),
    decreases u64::MAX - id, n,
{
    if n > 0 {
        lemma_children_cancelled(w, id, children, (n - 1) as nat, x);
        let k = children[n - 1];
        if id < k {
            lemma_cancelled(w.with_children_cancelled(id, children, (n - 1) as nat), k, x);
        }
    }
}

/// The same without a wait to look at: the queues stay apart.
proof fn lemma_waiters_apart(w: WorldView, ws: Seq<(u64, WaiterKind)>)
    requires
        apart(w.sched),
    ensures
        apart(w.with_waiters_cancelled(ws).sched),
    decreases ws.len(),
{
    if ws.len() > 0 {
        lemma_waiters_apart(w, ws.drop_last());
        let v = w.with_waiters_cancelled(ws.drop_last());
        lemma_without(v.sched, v.tempos.maps, ws.last().0, ws.last().1);
        lemma_fewer(v.sched, v.sched.without(v.tempos.maps, ws.last().0, ws.last().1));
    }
}

proof fn lemma_cancelled_apart(w: WorldView, id: u64)
    requires
        apart(w.sched),
    ensures
        apart(w.cancelled(id).sched),
    decreases u64::MAX - id, w.ctxs[id].children.len() + 1,
{
    if w.ctxs.contains_key(id) && !w.ctxs[id].canceled {
        let c = w.ctxs[id];
        lemma_waiters_apart(w.with_mark(id), c.waiters);
        lemma_children_apart(
            w.with_mark(id).with_waiters_cancelled(c.waiters),
            id,
            c.children,
            c.children.len(),
        );
    }
}

proof fn lemma_children_apart(w: WorldView, id: u64, children: Seq<u64>, n: nat)
    requires
        apart(w.sched),
    ensures
        apart(w.with_children_cancelled(id, children, n).sched),
    decreases u64::MAX - id, n,
{
    if n > 0 {
        lemma_children_apart(w, id, children, (n - 1) as nat);
        let k = children[n - 1];
        if id < k {
            lemma_cancelled_apart(w.with_children_cancelled(id, children, (n - 1) as nat), k);
        }
    }
}

proof fn lemma_all_ok(w: WorldView, ids: Seq<u64>)
    ensures
        w.with_all_ok(ids).sched == w.sched,
        forall|x: u64| #[trigger]
            w.waits.contains_key(x) ==> {
                let v = w.with_all_ok(ids);
                &&& v.waits.contains_key(x)
                &&& v.waits[x] == if ids.contains(x) {
                    w.waits[x].after_ok()
                } else {
                    w.waits[x]
                }
            },
    decreases ids.len(),
{
    if ids.len() > 0 {
        let init = ids.drop_last();
        lemma_all_ok(w, init);
        assert forall|x: u64| ids.contains(x) == (init.contains(x) || x == ids.last()) by {
            if ids.contains(x) {
                let j = choose|j: int| 0 <= j < ids.len() && ids[j] == x;
                if j < init.len() {
                    assert(init[j] == x);
                }
            }
            if init.contains(x) {
                let j = choose|j: int| 0 <= j < init.len() && init[j] == x;
                assert(ids[j] == x);
            }
            assert(ids[ids.len() - 1] == ids.last());
        }
    } else {
        assert forall|x: u64| !ids.contains(x) by {}
    }
}

proof fn lemma_slice(w: WorldView, x: u64)
    requires
        apart(w.sched),
    ensures
        apart(w.with_slice().sched),
        pending(w, x) ==> pending(w.with_slice(), x),
{
    let s = w.sched;
    let (sched, ids) = s.sliced(w.tempos.maps);
    let t = pq::earliest(s.times);
    let id = pq::first(s.heads);
    let q = s.beats_of(id);
    if !s.beats.contains_key(id) {
        assert(q.dom() =~= Set::empty());
    }
    pq::due_comes_in_order(s.times, t);
    pq::due_comes_in_order(q, pq::earliest(q));
    assert forall|k: u64, y: u64| #[trigger] sched.beats_of(k).contains_key(y) implies s.beats_of(
        k,
    ).contains_key(y) by {
        if k == id && y != pq::first(q) {
            assert(pq::rest(q, pq::earliest(q)).contains_key(y) ==> q.contains_key(y));
        }
    }
    assert forall|y: u64| #[trigger] sched.times.contains_key(y) implies s.times.contains_key(
        y,
    ) by {}
    lemma_fewer(s, sched);
    lemma_all_ok(WorldView { sched, ..w }, ids);
    if pending(w, x) && ids.contains(x) {
        let j = choose|j: int| 0 <= j < ids.len() && ids[j] == x;
        assert(s.times.contains_key(ids[j]) || q.contains_key(ids[j]));
        assert(s.beats_of(id).contains_key(x) ==> false);
    }
}

/// After a poll that does not queue anything yet.
proof fn lemma_polled(
    w: WorldView,
    ctx: u64,
    p: WaitPhase,
    kind: WaiterKind,
    waker: u64,
    t: Flt,
    x: u64,
)
    requires
        apart(w.sched),
        w.sched.seq < u64::MAX,
    ensures
        ({
            let (v, q, _) = w.polled(ctx, p, kind, waker, t);
            &&& apart(v.sched)
            &&& pending(w, x) ==> pending(v, x)
            &&& v.sched.times == w.sched.times
            &&& v.sched.beats == w.sched.beats
            &&& v.sched.frames == w.sched.frames
            &&& p is Fresh && q is Registered ==> context::number_of(q) == w.sched.seq
                && v.sched.seq == w.sched.seq + 1
        }),
{
    let v = w.polled(ctx, p, kind, waker, t).0;
    assert forall|k: u64| #[trigger] v.sched.beats_of(k) == w.sched.beats_of(k) by {}
    lemma_fewer(w.sched, v.sched);
}

proof fn lemma_time_polled(w: WorldView, f: TimeWaitFuture, waker: u64, x: u64)
    requires
        apart(w.sched),
        w.sched.seq < u64::MAX,
    ensures
        apart(w.time_polled(f, waker).0.sched),
        pending(w, x) ==> pending(w.time_polled(f, waker).0, x),
{
    let t = w.ctxs[f.ctx.id].time.larger(f.target_time);
    lemma_polled(w, f.ctx.id, f.phase, WaiterKind::Time, waker, t, x);
    let (v, p, _) = w.polled(f.ctx.id, f.phase, WaiterKind::Time, waker, t);
    let r = w.time_polled(f, waker).0;
    assert forall|k: u64| #[trigger] r.sched.beats_of(k) == w.sched.beats_of(k) by {}
    assert forall|k: u64| #[trigger] v.sched.beats_of(k) == w.sched.beats_of(k) by {}
}

proof fn lemma_beat_polled(w: WorldView, f: BeatWaitFuture, waker: u64, x: u64)
    requires
        apart(w.sched),
        w.sched.seq < u64::MAX,
    ensures
        apart(w.beat_polled(f, waker).0.sched),
        pending(w, x) ==> pending(w.beat_polled(f, waker).0, x),
{
    let due = crate::tempo::time_at(w.tempos.maps[f.tempo_id].segs, f.target_beat);
    let t = w.ctxs[f.ctx.id].time.larger(due);
    let kind = WaiterKind::Beat { tempo_id: f.tempo_id };
    lemma_polled(w, f.ctx.id, f.phase, kind, waker, t, x);
    let (v, p, _) = w.polled(f.ctx.id, f.phase, kind, waker, t);
    assert forall|k: u64| #[trigger] v.sched.beats_of(k) == w.sched.beats_of(k) by {}
    if f.phase is Fresh && p is Registered {
        let id = w.sched.seq;
        let r = w.beat_polled(f, waker).0;
        let q = w.sched.beats_of(f.tempo_id);
        if !w.sched.beats.contains_key(f.tempo_id) {
            assert(q.dom() =~= Set::empty());
        }
        assert(r.sched.times == w.sched.times);
        assert(r.sched.frames == w.sched.frames);
        assert(r.sched.seq == w.sched.seq + 1);
        assert(r.sched.beats_of(f.tempo_id).dom() =~= q.dom().insert(id));
        assert forall|k: u64, y: u64| #[trigger]
            r.sched.beats_of(k).contains_key(y) implies w.sched.beats_of(k).contains_key(y) || y
            == id by {}
        assert forall|k: u64| #[trigger] r.sched.beats.contains_key(
            k,
        ) implies r.sched.beats[k].dom().finite() by {
            assert(r.sched.beats_of(k) == r.sched.beats[k]);
            if k != f.tempo_id {
                assert(w.sched.beats.contains_key(k));
                assert(w.sched.beats[k] == r.sched.beats[k]);
            }
        }
    }
}

proof fn lemma_freed(w: WorldView, xs: Seq<BarrierWaiter>, t: Flt, reach: bool)
    ensures
        quiet(w, w.with_waiters_freed(xs, t, reach)),
    decreases xs.len(),
{
    if xs.len() > 0 {
        lemma_freed(w, xs.drop_last(), t, reach);
    }
}

proof fn lemma_task(w: WorldView, m: TaskMove)
    ensures
        quiet(w, w.after_task(m).0),
{
    reveal(WorldView::after_task);
}

proof fn lemma_barrier(w: WorldView, m: BarrierMove)
    ensures
        quiet(w, w.after_barrier(m).0),
{
    reveal(WorldView::after_barrier);
    match m {
        BarrierMove::Start { ctx, key } => {
            let root = w.root_of(ctx);
            let v = w.with_barrier(root, key);
            let i = barrier::at(v.barriers, root, key);
            let b = v.barriers[i];
            let emptied = BarrierView { waiters: Seq::empty(), ..b };
            lemma_freed(v.with_barrier_at(i, emptied), b.waiters, b.resolved, false);
        },
        BarrierMove::Resolve { ctx, key } => {
            let i = barrier::at(w.barriers, w.root_of(ctx), key);
            let b = w.barriers[i];
            let t = w.ctxs[ctx].time;
            let emptied = BarrierView {
                resolved: t,
                in_progress: false,
                waiters: Seq::empty(),
                ..b
            };
            lemma_freed(w.with_barrier_at(i, emptied), b.waiters, t, true);
        },
        _ => {},
    }
}

proof fn lemma_own(w: WorldView, m: OwnMove)
    ensures
        quiet(w, w.after_own(m).0),
{
    reveal(WorldView::after_own);
}

proof fn lemma_tree(w: WorldView, m: TreeMove)
    requires
        !(m is Cancel),
    ensures
        quiet(w, w.after_tree(m).0),
{
    reveal(WorldView::after_tree);
}

/// Whatever is done, the numbers of waits are used up in order, and a wait for
/// the next frame stands in no other queue.
pub proof fn moves_keep_apart(w: WorldView, m: Move)
    requires
        apart(w.sched),
        w.sched.seq < u64::MAX,
    ensures
        apart(w.after(m).sched),
{
    match m {
        Move::Task(y) => {
            lemma_task(w, y);
            lemma_quiet(w, w.after(m));
        },
        Move::Wait(y) => {
            reveal(WorldView::after_wait);
            match y {
                WaitMove::Slice => lemma_slice(w, 0),
                WaitMove::PollTime { time_wait, waker } => lemma_time_polled(
                    w,
                    time_wait,
                    waker,
                    0,
                ),
                WaitMove::PollBeat { beat_wait, waker } => lemma_beat_polled(
                    w,
                    beat_wait,
                    waker,
                    0,
                ),
            }
        },
        Move::Tree(TreeMove::Cancel { ctx }) => {
            reveal(WorldView::after_tree);
            lemma_cancelled_apart(w, ctx);
        },
        Move::Tree(y) => {
            lemma_tree(w, y);
            lemma_quiet(w, w.after(m));
        },
        Move::Barrier(y) => {
            lemma_barrier(w, y);
            lemma_quiet(w, w.after(m));
        },
        Move::Own(y) => {
            lemma_own(w, y);
            lemma_quiet(w, w.after(m));
        },
    }
}

/// A wait for the next frame and a frame keep that, too.
pub proof fn frames_keep_apart(w: WorldView, f: FrameWaitFuture, waker: u64, wall: Flt)
    requires
        apart(w.sched),
        w.sched.seq < u64::MAX,
    ensures
        apart(w.frame_polled(f, waker, wall).0.sched),
        apart(w.with_frame().sched),
{
    let t = w.ctxs[f.ctx.id].time.larger(w.sched.now(wall)).larger(w.sched.most_recent_desc_time);
    lemma_polled(w, f.ctx.id, f.phase, WaiterKind::Frame, waker, t, 0);
    let (v, p, _) = w.polled(f.ctx.id, f.phase, WaiterKind::Frame, waker, t);
    let r = w.frame_polled(f, waker, wall).0;
    assert forall|k: u64| #[trigger] r.sched.beats_of(k) == w.sched.beats_of(k) by {}
    let bare = WorldView { sched: SchedView { frames: Map::empty(), ..w.sched }, ..w };
    assert forall|k: u64| #[trigger] bare.sched.beats_of(k) == w.sched.beats_of(k) by {}
    lemma_fewer(w.sched, bare.sched);
    lemma_all_ok(bare, pq::due(w.sched.frames, Flt::zero()));
}

/// A new engine starts so.
pub proof fn engines_start_apart(mode: SchedulerMode, bpm: Flt, seed: Seq<char>, rate: Flt)
    ensures
        apart(engine::launched(mode, bpm, seed, rate).sched),
{
}

/// A wait for the next frame stays pending whatever is done before the frame:
/// time may pass, and other waits come due, but not this one. Only a
/// cancellation can end it, and then it was cancelled and did not come due.
pub proof fn frame_wait_outlasts_moves(w: WorldView, m: Move, x: u64)
    requires
        apart(w.sched),
        w.sched.seq < u64::MAX,
        pending(w, x),
    ensures
        pending(w.after(m), x) || called_off(w.after(m), x),
        !(m matches Move::Tree(TreeMove::Cancel { .. })) ==> pending(w.after(m), x),
{
    match m {
        Move::Task(y) => lemma_task(w, y),
        Move::Wait(y) => {
            reveal(WorldView::after_wait);
            match y {
                WaitMove::Slice => lemma_slice(w, x),
                WaitMove::PollTime { time_wait, waker } => lemma_time_polled(
                    w,
                    time_wait,
                    waker,
                    x,
                ),
                WaitMove::PollBeat { beat_wait, waker } => lemma_beat_polled(
                    w,
                    beat_wait,
                    waker,
                    x,
                ),
            }
        },
        Move::Tree(TreeMove::Cancel { ctx }) => {
            reveal(WorldView::after_tree);
            lemma_cancelled(w, ctx, x);
        },
        Move::Tree(y) => lemma_tree(w, y),
        Move::Barrier(y) => lemma_barrier(w, y),
        Move::Own(y) => lemma_own(w, y),
    }
}

/// A wait for the next frame that was polled is pending, unless its context
/// was cancelled; a poll of a pending wait gives nothing and leaves it so, and
/// so does a poll of any other wait for the next frame.
pub proof fn frame_wait_outlasts_polls(
    w: WorldView,
    f: FrameWaitFuture,
    waker: u64,
    wall: Flt,
    x: u64,
)
    requires
        apart(w.sched),
        w.sched.seq < u64::MAX,
    ensures
        ({
            let (v, p, r) = w.frame_polled(f, waker, wall);
            &&& f.phase is Fresh && !w.ctxs[f.ctx.id].canceled ==> r is None && p
                == (WaitPhase::Registered { id: w.sched.seq }) && pending(v, w.sched.seq)
            &&& pending(w, x) ==> pending(v, x)
            &&& pending(w, x) && f.phase == (WaitPhase::Registered { id: x }) ==> r is None && p
                == f.phase
        }),
{
    let t = w.ctxs[f.ctx.id].time.larger(w.sched.now(wall)).larger(w.sched.most_recent_desc_time);
    lemma_polled(w, f.ctx.id, f.phase, WaiterKind::Frame, waker, t, x);
}

/// A frame lets every pending wait for it come due, and leaves none.
pub proof fn frame_ends_its_waits(w: WorldView, x: u64)
    requires
        apart(w.sched),
        pending(w, x),
    ensures
        w.with_frame().waits.contains_key(x),
        w.with_frame().waits[x].done,
        w.with_frame().sched.frames.is_empty(),
{
    let q = w.sched.frames;
    let ids = pq::due(q, Flt::zero());
    pq::first_exists(q);
    assert(q.contains_key(pq::first(q)));
    pq::due_comes_in_order(q, Flt::zero());
    assert(ids.contains(x));
    lemma_all_ok(
        WorldView { sched: SchedView { frames: Map::empty(), ..w.sched }, ..w },
        ids,
    );
}

/// What happens in a run.
pub enum Step {
    /// A move of a task or the host.
    Move(Move),
    /// A poll of a wait for the next frame.
    Poll {
        /// The wait.
        wait: FrameWaitFuture,
        /// The task to wake.
        waker: u64,
        /// The time on the wall.
        wall: Flt,
    },
    /// A frame.
    Frame,
}

/// After one step.
pub open spec fn after_step(w: WorldView, s: Step) -> WorldView {
    match s {
        Step::Move(m) => w.after(m),
        Step::Poll { wait, waker, wall } => w.frame_polled(wait, waker, wall).0,
        Step::Frame => w.with_frame(),
    }
}

/// After a run.
pub open spec fn ran(w: WorldView, steps: Seq<Step>) -> WorldView
    decreases steps.len(),
{
    if steps.len() == 0 {
        w
    } else {
        after_step(ran(w, steps.drop_last()), steps.last())
    }
}

/// How far the wait has come that a step polls.
pub open spec fn polled_phase(s: Step) -> WaitPhase {
    match s {
        Step::Move(Move::Wait(WaitMove::PollTime { time_wait, .. })) => time_wait.phase,
        Step::Move(Move::Wait(WaitMove::PollBeat { beat_wait, .. })) => beat_wait.phase,
        Step::Poll { wait, .. } => wait.phase,
        _ => WaitPhase::Fresh,
    }
}

/// The step can be taken while `c` waits under the number `x`: what it speaks
/// of is there, numbers have not run out, `c` is not forgotten, nobody else has
/// that number, and who waits under it has not heard how it ended.
pub open spec fn fitting(w: WorldView, s: Step, c: u64, x: u64) -> bool {
    &&& w.wf()
    &&& w.sched.seq < u64::MAX
    &&& match s {
        Step::Move(m) => moves::allowed(w, m) && m != Move::Tree(TreeMove::Release { ctx: c }),
        Step::Poll { wait, .. } => w.ctxs.contains_key(wait.ctx.id),
        Step::Frame => true,
    }
    &&& polled_phase(s) != (WaitPhase::Done { id: x })
    &&& w.waits.contains_key(x) && w.waits[x].settled() ==> polled_phase(s) != (
    WaitPhase::Registered { id: x })
}

/// All steps of a run can be taken.
pub open spec fn all_fitting(w: WorldView, steps: Seq<Step>, c: u64, x: u64) -> bool
    decreases steps.len(),
{
    steps.len() == 0 || (all_fitting(w, steps.drop_last(), c, x) && fitting(
        ran(w, steps.drop_last()),
        steps.last(),
        c,
        x,
    ))
}

/// The wait `x` for the next frame is one of `c`: it is pending as long as `c`
/// is not cancelled, and called off with it.
spec fn stands(w: WorldView, c: u64, x: u64) -> bool {
    &&& x < w.sched.seq
    &&& w.ctxs.contains_key(c)
    &&& if w.ctxs[c].canceled {
        called_off(w, x)
    } else {
        pending(w, x) && w.ctxs[c].waiters.contains((x, WaiterKind::Frame))
    }
}

/// A context that is not cancelled or forgotten in between keeps its wait.
spec fn holds_on(w: WorldView, v: WorldView, c: u64, x: u64) -> bool {
    &&& v.ctxs.contains_key(c)
    &&& v.ctxs[c].canceled == w.ctxs[c].canceled
    &&& w.ctxs[c].waiters.contains((x, WaiterKind::Frame)) ==> v.ctxs[c].waiters.contains(
        (x, WaiterKind::Frame),
    )
}

proof fn lemma_without_keeps(s: Seq<(u64, WaiterKind)>, id: u64, a: (u64, WaiterKind))
    requires
        s.contains(a),
        a.0 != id,
    ensures
        world::without_waiter(s, id).contains(a),
    decreases s.len(),
{
    let i = choose|i: int| 0 <= i < s.len() && s[i] == a;
    let r = world::without_waiter(s, id);
    if i == s.len() - 1 {
        assert(r[r.len() - 1] == a);
    } else {
        assert(s.drop_last()[i] == a);
        lemma_without_keeps(s.drop_last(), id, a);
        let init = world::without_waiter(s.drop_last(), id);
        let j = choose|j: int| 0 <= j < init.len() && init[j] == a;
        assert(r[j] == a);
    }
}

proof fn lemma_polled_holds_on(
    w: WorldView,
    ctx: u64,
    p: WaitPhase,
    kind: WaiterKind,
    waker: u64,
    t: Flt,
    c: u64,
    x: u64,
)
    requires
        w.wf(),
        w.ctxs.contains_key(c),
        w.ctxs.contains_key(ctx),
        p != (WaitPhase::Done { id: x }),
        w.waits.contains_key(x),
        w.waits[x].settled() ==> p != (WaitPhase::Registered { id: x }),
    ensures
        holds_on(w, w.polled(ctx, p, kind, waker, t).0, c, x),
{
    let s = w.state_of(p);
    let v = w.polled(ctx, p, kind, waker, t).0;
    if !s.cancelled && s.done {
        let id = context::number_of(p);
        if ctx == c && w.ctxs[c].waiters.contains((x, WaiterKind::Frame)) {
            lemma_without_keeps(w.ctxs[c].waiters, id, (x, WaiterKind::Frame));
        }
    } else if !s.cancelled && !(p is Registered) && !w.ctxs[ctx].canceled {
        if ctx == c && w.ctxs[c].waiters.contains((x, WaiterKind::Frame)) {
            let ws = w.ctxs[c].waiters;
            let i = choose|i: int| 0 <= i < ws.len() && ws[i] == (x, WaiterKind::Frame);
            assert(v.ctxs[c].waiters[i] == (x, WaiterKind::Frame));
        }
    }
}

proof fn lemma_freed_holds_on(
    w: WorldView,
    xs: Seq<BarrierWaiter>,
    t: Flt,
    reach: bool,
    c: u64,
    x: u64,
)
    requires
        w.ctxs.contains_key(c),
        forall|k: u64| #[trigger] w.ctxs.contains_key(k) ==> w.ctxs[k].id == k,
    ensures
        holds_on(w, w.with_waiters_freed(xs, t, reach), c, x),
        forall|k: u64| #[trigger]
            w.with_waiters_freed(xs, t, reach).ctxs.contains_key(k) ==> w.with_waiters_freed(
                xs,
                t,
                reach,
            ).ctxs[k].id == k,
    decreases xs.len(),
{
    if xs.len() > 0 {
        lemma_freed_holds_on(w, xs.drop_last(), t, reach, c, x);
    }
}

proof fn lemma_barrier_holds_on(w: WorldView, m: BarrierMove, c: u64, x: u64)
    requires
        w.wf(),
        w.ctxs.contains_key(c),
        moves::allowed(w, Move::Barrier(m)),
    ensures
        holds_on(w, w.after_barrier(m).0, c, x),
{
    reveal(WorldView::after_barrier);
    match m {
        BarrierMove::Start { ctx, key } => {
            let root = w.root_of(ctx);
            let v = w.with_barrier(root, key);
            let i = barrier::at(v.barriers, root, key);
            let b = v.barriers[i];
            let emptied = BarrierView { waiters: Seq::empty(), ..b };
            lemma_freed_holds_on(
                v.with_barrier_at(i, emptied),
                b.waiters,
                b.resolved,
                false,
                c,
                x,
            );
        },
        BarrierMove::Resolve { ctx, key } => {
            let i = barrier::at(w.barriers, w.root_of(ctx), key);
            let b = w.barriers[i];
            let t = w.ctxs[ctx].time;
            let emptied = BarrierView {
                resolved: t,
                in_progress: false,
                waiters: Seq::empty(),
                ..b
            };
            lemma_freed_holds_on(w.with_barrier_at(i, emptied), b.waiters, t, true, c, x);
        },
        _ => {},
    }
}

proof fn lemma_tree_holds_on(w: WorldView, m: TreeMove, c: u64, x: u64)
    requires
        w.wf(),
        w.ctxs.contains_key(c),
        moves::allowed(w, Move::Tree(m)),
        !(m is Cancel),
        m != (TreeMove::Release { ctx: c }),
    ensures
        holds_on(w, w.after_tree(m).0, c, x),
{
    reveal(WorldView::after_tree);
    assert(w.ctxs[c].wf(w));
}

proof fn lemma_own_holds_on(w: WorldView, m: OwnMove, c: u64, x: u64)
    requires
        w.wf(),
        w.ctxs.contains_key(c),
        moves::allowed(w, Move::Own(m)),
    ensures
        holds_on(w, w.after_own(m).0, c, x),
{
    reveal(WorldView::after_own);
}

/// Whatever is done but to cancel, a context keeps its wait.
proof fn lemma_holds_on(w: WorldView, s: Step, c: u64, x: u64)
    requires
        fitting(w, s, c, x),
        w.ctxs.contains_key(c),
        w.waits.contains_key(x),
        !(s matches Step::Move(Move::Tree(TreeMove::Cancel { .. }))),
    ensures
        holds_on(w, after_step(w, s), c, x),
{
    match s {
        Step::Move(m) => match m {
            Move::Task(y) => {
                reveal(WorldView::after_task);
            },
            Move::Wait(y) => {
                reveal(WorldView::after_wait);
                match y {
                    WaitMove::Slice => {
                        let (sched, ids) = w.sched.sliced(w.tempos.maps);
                        lemma_all_ok_ctxs(WorldView { sched, ..w }, ids);
                    },
                    WaitMove::PollTime { time_wait: f, waker } => {
                        let t = w.ctxs[f.ctx.id].time.larger(f.target_time);
                        lemma_polled_holds_on(
                            w,
                            f.ctx.id,
                            f.phase,
                            WaiterKind::Time,
                            waker,
                            t,
                            c,
                            x,
                        );
                    },
                    WaitMove::PollBeat { beat_wait: f, waker } => {
                        let due = crate::tempo::time_at(
                            w.tempos.maps[f.tempo_id].segs,
                            f.target_beat,
                        );
                        let t = w.ctxs[f.ctx.id].time.larger(due);
                        let kind = WaiterKind::Beat { tempo_id: f.tempo_id };
                        lemma_polled_holds_on(w, f.ctx.id, f.phase, kind, waker, t, c, x);
                    },
                }
            },
            Move::Tree(y) => lemma_tree_holds_on(w, y, c, x),
            Move::Barrier(y) => lemma_barrier_holds_on(w, y, c, x),
            Move::Own(y) => lemma_own_holds_on(w, y, c, x),
        },
        Step::Poll { wait: f, waker, wall } => {
            let t = w.ctxs[f.ctx.id].time.larger(w.sched.now(wall)).larger(
                w.sched.most_recent_desc_time,
            );
            lemma_polled_holds_on(w, f.ctx.id, f.phase, WaiterKind::Frame, waker, t, c, x);
        },
        Step::Frame => {
            let ids = pq::due(w.sched.frames, Flt::zero());
            lemma_all_ok_ctxs(
                WorldView { sched: SchedView { frames: Map::empty(), ..w.sched }, ..w },
                ids,
            );
        },
    }
}

proof fn lemma_all_ok_ctxs(w: WorldView, ids: Seq<u64>)
    ensures
        w.with_all_ok(ids).ctxs == w.ctxs,
        w.with_all_ok(ids).sched == w.sched,
    decreases ids.len(),
{
    if ids.len() > 0 {
        lemma_all_ok_ctxs(w, ids.drop_last());
    }
}

proof fn lemma_waiters_keep_state(w: WorldView, ws: Seq<(u64, WaiterKind)>, x: u64)
    requires
        w.waits.contains_key(x),
        w.waits[x].settled(),
    ensures
        w.with_waiters_cancelled(ws).waits.contains_key(x),
        w.with_waiters_cancelled(ws).waits[x] == w.waits[x],
        w.with_waiters_cancelled(ws).sched.seq == w.sched.seq,
    decreases ws.len(),
{
    if ws.len() > 0 {
        lemma_waiters_keep_state(w, ws.drop_last(), x);
    }
}

proof fn lemma_cancel_keeps_state(w: WorldView, id: u64, x: u64)
    requires
        w.waits.contains_key(x),
        w.waits[x].settled(),
    ensures
        w.cancelled(id).waits.contains_key(x),
        w.cancelled(id).waits[x] == w.waits[x],
        w.cancelled(id).sched.seq == w.sched.seq,
    decreases u64::MAX - id, w.ctxs[id].children.len() + 1,
{
    if w.ctxs.contains_key(id) && !w.ctxs[id].canceled {
        let c = w.ctxs[id];
        lemma_waiters_keep_state(w.with_mark(id), c.waiters, x);
        lemma_children_keep_state(
            w.with_mark(id).with_waiters_cancelled(c.waiters),
            id,
            c.children,
            c.children.len(),
            x,
        );
    }
}

proof fn lemma_children_keep_state(w: WorldView, id: u64, children: Seq<u64>, n: nat, x: u64)
    requires
        w.waits.contains_key(x),
        w.waits[x].settled(),
    ensures
        w.with_children_cancelled(id, children, n).waits.contains_key(x),
        w.with_children_cancelled(id, children, n).waits[x] == w.waits[x],
        w.with_children_cancelled(id, children, n).sched.seq == w.sched.seq,
    decreases u64::MAX - id, n,
{
    if n > 0 {
        lemma_children_keep_state(w, id, children, (n - 1) as nat, x);
        let k = children[n - 1];
        if id < k {
            lemma_cancel_keeps_state(
                w.with_children_cancelled(id, children, (n - 1) as nat),
                k,
                x,
            );
        }
    }
}

/// A wait that was settled stays as it is until it is polled.
proof fn lemma_settled_stays(w: WorldView, s: Step, c: u64, x: u64)
    requires
        fitting(w, s, c, x),
        x < w.sched.seq,
        w.waits.contains_key(x),
        w.waits[x].settled(),
    ensures
        after_step(w, s).waits.contains_key(x),
        after_step(w, s).waits[x] == w.waits[x],
        w.sched.seq <= after_step(w, s).sched.seq,
{
    match s {
        Step::Move(m) => match m {
            Move::Task(y) => lemma_task(w, y),
            Move::Wait(y) => {
                reveal(WorldView::after_wait);
                match y {
                    WaitMove::Slice => {
                        let (sched, ids) = w.sched.sliced(w.tempos.maps);
                        lemma_all_ok(WorldView { sched, ..w }, ids);
                    },
                    _ => {},
                }
            },
            Move::Tree(TreeMove::Cancel { ctx }) => {
                reveal(WorldView::after_tree);
                lemma_cancel_keeps_state(w, ctx, x);
            },
            Move::Tree(y) => lemma_tree(w, y),
            Move::Barrier(y) => lemma_barrier(w, y),
            Move::Own(y) => lemma_own(w, y),
        },
        Step::Poll { .. } => {},
        Step::Frame => {
            lemma_all_ok(
                WorldView { sched: SchedView { frames: Map::empty(), ..w.sched }, ..w },
                pq::due(w.sched.frames, Flt::zero()),
            );
        },
    }
}

/// A step keeps the order of the queues and of the contexts.
proof fn lemma_step_keeps(w: WorldView, s: Step, c: u64, x: u64)
    requires
        fitting(w, s, c, x),
        apart(w.sched),
        kin::tidy(w.ctxs, w.sched.seq),
    ensures
        apart(after_step(w, s).sched),
        kin::tidy(after_step(w, s).ctxs, after_step(w, s).sched.seq),
{
    match s {
        Step::Move(m) => {
            moves_keep_apart(w, m);
            kin::moves_keep_tidy(w, m);
        },
        Step::Poll { wait, waker, wall } => {
            frames_keep_apart(w, wait, waker, wall);
            kin::frames_keep_tidy(w, wait, waker, wall);
        },
        Step::Frame => {
            let bare = WorldView { sched: SchedView { frames: Map::empty(), ..w.sched }, ..w };
            assert forall|k: u64| #[trigger] bare.sched.beats_of(k) == w.sched.beats_of(k) by {}
            lemma_fewer(w.sched, bare.sched);
            lemma_all_ok_ctxs(bare, pq::due(w.sched.frames, Flt::zero()));
        },
    }
}

/// One step before the frame.
proof fn lemma_step_stands(w: WorldView, s: Step, c: u64, x: u64)
    requires
        fitting(w, s, c, x),
        !(s is Frame),
        apart(w.sched),
        kin::tidy(w.ctxs, w.sched.seq),
        stands(w, c, x),
    ensures
        stands(after_step(w, s), c, x),
{
    let v = after_step(w, s);
    if w.ctxs[c].canceled {
        lemma_settled_stays(w, s, c, x);
        match s {
            Step::Move(Move::Tree(TreeMove::Cancel { ctx })) => {
                reveal(WorldView::after_tree);
                laws::cancel_touches_nothing_else(w, ctx);
                assert(w.ctxs.contains_key(c) && v.ctxs.contains_key(c));
            },
            _ => lemma_holds_on(w, s, c, x),
        }
    } else {
        match s {
            Step::Move(Move::Tree(TreeMove::Cancel { ctx })) => {
                reveal(WorldView::after_tree);
                assert forall|p: u64, i: int|
                    #![trigger w.ctxs[p].children[i]]
                    w.ctxs.contains_key(p) && 0 <= i < w.ctxs[p].children.len() implies p
                    < w.ctxs[p].children[i] by {
                    assert(w.ctxs[p].wf(w));
                }
                kin::lemma_reached_or_kept(w, ctx, c);
                kin::cancel_spares_the_others(w, ctx);
                let ws = w.ctxs[c].waiters;
                let i = choose|i: int| 0 <= i < ws.len() && ws[i] == (x, WaiterKind::Frame);
                assert(w.ctxs[c].waiters[i].0 == x);
                assert(kin::waits_for(w.ctxs[c], x));
                if kin::reached(w, v, c) {
                    assert(kin::ends_cancelled(w, v, x, WaiterKind::Frame));
                } else {
                    assert(kin::keeps_wait(w, v, x, WaiterKind::Frame));
                }
            },
            Step::Move(m) => {
                lemma_holds_on(w, s, c, x);
                frame_wait_outlasts_moves(w, m, x);
                lemma_seq_grows(w, s, c, x);
            },
            Step::Poll { wait, waker, wall } => {
                lemma_holds_on(w, s, c, x);
                frame_wait_outlasts_polls(w, wait, waker, wall, x);
            },
            Step::Frame => {},
        }
    }
}

proof fn lemma_seq_grows(w: WorldView, s: Step, c: u64, x: u64)
    requires
        fitting(w, s, c, x),
        s is Move,
        !(s matches Step::Move(Move::Tree(TreeMove::Cancel { .. }))),
    ensures
        w.sched.seq <= after_step(w, s).sched.seq,
{
    match s->Move_0 {
        Move::Task(y) => lemma_task(w, y),
        Move::Wait(y) => {
            reveal(WorldView::after_wait);
            match y {
                WaitMove::Slice => {
                    let (sched, ids) = w.sched.sliced(w.tempos.maps);
                    lemma_all_ok(WorldView { sched, ..w }, ids);
                },
                _ => {},
            }
        },
        Move::Tree(y) => lemma_tree(w, y),
        Move::Barrier(y) => lemma_barrier(w, y),
        Move::Own(y) => lemma_own(w, y),
    }
}

/// A run before the frame.
proof fn lemma_run_stands(w: WorldView, steps: Seq<Step>, c: u64, x: u64)
    requires
        all_fitting(w, steps, c, x),
        forall|i: int| 0 <= i < steps.len() ==> !((#[trigger] steps[i]) is Frame),
        apart(w.sched),
        kin::tidy(w.ctxs, w.sched.seq),
        stands(w, c, x),
    ensures
        apart(ran(w, steps).sched),
        kin::tidy(ran(w, steps).ctxs, ran(w, steps).sched.seq),
        stands(ran(w, steps), c, x),
    decreases steps.len(),
{
    if steps.len() > 0 {
        let init = steps.drop_last();
        assert forall|i: int| 0 <= i < init.len() implies !((#[trigger] init[i]) is Frame) by {
            assert(steps[i] == init[i]);
        }
        lemma_run_stands(w, init, c, x);
        assert(steps[steps.len() - 1] == steps.last());
        lemma_step_keeps(ran(w, init), steps.last(), c, x);
        lemma_step_stands(ran(w, init), steps.last(), c, x);
    }
}

/// A step leaves a context where it is, unless it forgets it.
proof fn lemma_step_keeps_ctx(w: WorldView, s: Step, c: u64, x: u64)
    requires
        fitting(w, s, c, x),
        w.ctxs.contains_key(c),
        w.waits.contains_key(x),
    ensures
        after_step(w, s).ctxs.contains_key(c),
{
    match s {
        Step::Move(Move::Tree(TreeMove::Cancel { ctx })) => {
            reveal(WorldView::after_tree);
            laws::cancel_touches_nothing_else(w, ctx);
        },
        _ => lemma_holds_on(w, s, c, x),
    }
}

/// A run after the frame.
proof fn lemma_run_settled(w: WorldView, steps: Seq<Step>, c: u64, x: u64)
    requires
        all_fitting(w, steps, c, x),
        apart(w.sched),
        kin::tidy(w.ctxs, w.sched.seq),
        w.ctxs.contains_key(c),
        x < w.sched.seq,
        w.waits.contains_key(x),
        w.waits[x].settled(),
    ensures
        apart(ran(w, steps).sched),
        kin::tidy(ran(w, steps).ctxs, ran(w, steps).sched.seq),
        ran(w, steps).ctxs.contains_key(c),
        x < ran(w, steps).sched.seq,
        ran(w, steps).waits.contains_key(x),
        ran(w, steps).waits[x] == w.waits[x],
    decreases steps.len(),
{
    if steps.len() > 0 {
        let v = ran(w, steps.drop_last());
        lemma_run_settled(w, steps.drop_last(), c, x);
        lemma_step_keeps(v, steps.last(), c, x);
        lemma_step_keeps_ctx(v, steps.last(), c, x);
        lemma_settled_stays(v, steps.last(), c, x);
    }
}

/// What a poll gives once a wait is settled, and while it is not.
proof fn lemma_poll_tells(w: WorldView, f: FrameWaitFuture, waker: u64, wall: Flt, x: u64)
    requires
        f.phase == (WaitPhase::Registered { id: x }),
        w.waits.contains_key(x),
        w.ctxs[f.ctx.id].id == f.ctx.id,
    ensures
        ({
            let c = f.ctx.id;
            let (v, p, r) = w.frame_polled(f, waker, wall);
            &&& !w.waits[x].settled() ==> r is None && p == f.phase
            &&& w.waits[x].cancelled ==> r == Some(Err::<(), Seq<char>>("cancelled"@)) && v.ctxs
                == w.ctxs
            &&& w.waits[x].done && !w.waits[x].cancelled ==> r == Some(Ok::<(), Seq<char>>(()))
                && v.ctxs[c].time == w.ctxs[c].time.larger(w.sched.now(wall)).larger(
                w.sched.most_recent_desc_time,
            )
        }),
{
}

/// The frame itself.
proof fn lemma_frame_settles(w: WorldView, c: u64, x: u64)
    requires
        apart(w.sched),
        kin::tidy(w.ctxs, w.sched.seq),
        stands(w, c, x),
    ensures
        ({
            let v = w.with_frame();
            &&& apart(v.sched)
            &&& kin::tidy(v.ctxs, v.sched.seq)
            &&& v.ctxs.contains_key(c)
            &&& x < v.sched.seq
            &&& v.waits.contains_key(x)
            &&& v.waits[x].settled()
            &&& w.ctxs[c].canceled ==> v.waits[x].cancelled
            &&& !w.ctxs[c].canceled ==> v.waits[x].done && !v.waits[x].cancelled
        }),
{
    let ids = pq::due(w.sched.frames, Flt::zero());
    let bare = WorldView { sched: SchedView { frames: Map::empty(), ..w.sched }, ..w };
    assert forall|k: u64| #[trigger] bare.sched.beats_of(k) == w.sched.beats_of(k) by {}
    lemma_fewer(w.sched, bare.sched);
    lemma_all_ok(bare, ids);
    lemma_all_ok_ctxs(bare, ids);
    if !w.ctxs[c].canceled {
        frame_ends_its_waits(w, x);
    }
}

/// The first poll.
proof fn lemma_first_poll(w: WorldView, f: FrameWaitFuture, waker: u64, wall: Flt)
    requires
        w.wf(),
        apart(w.sched),
        kin::tidy(w.ctxs, w.sched.seq),
        w.sched.seq < u64::MAX,
        w.ctxs.contains_key(f.ctx.id),
        !w.ctxs[f.ctx.id].canceled,
        f.phase is Fresh,
    ensures
        ({
            let (v, p, r) = w.frame_polled(f, waker, wall);
            &&& r is None
            &&& p == (WaitPhase::Registered { id: w.sched.seq })
            &&& apart(v.sched)
            &&& kin::tidy(v.ctxs, v.sched.seq)
            &&& stands(v, f.ctx.id, w.sched.seq)
        }),
{
    let x = w.sched.seq;
    let v = w.frame_polled(f, waker, wall).0;
    frame_wait_outlasts_polls(w, f, waker, wall, x);
    frames_keep_apart(w, f, waker, wall);
    kin::frames_keep_tidy(w, f, waker, wall);
    let ws = v.ctxs[f.ctx.id].waiters;
    assert(ws[ws.len() - 1] == (x, WaiterKind::Frame));
}

/// A wait for the next frame, from its first poll to its last: it is pending
/// until a frame that comes after its first poll, however far time advances and
/// whatever else is done. When it is polled after that frame it ends well, at
/// the largest of three times: that of its context, that of the clock, and the
/// latest that any wait has reached. Where its context was cancelled before the
/// frame, it fails when it is polled next, and no time moves.
pub proof fn frame_wait_lasts_until_the_frame(
    w: WorldView,
    f: FrameWaitFuture,
    waker: u64,
    wall: Flt,
    before: Seq<Step>,
    after: Seq<Step>,
    late: Flt,
)
    requires
        w.wf(),
        apart(w.sched),
        kin::tidy(w.ctxs, w.sched.seq),
        w.sched.seq < u64::MAX,
        w.ctxs.contains_key(f.ctx.id),
        !w.ctxs[f.ctx.id].canceled,
        f.phase is Fresh,
        forall|i: int| 0 <= i < before.len() ==> !((#[trigger] before[i]) is Frame),
        all_fitting(w.frame_polled(f, waker, wall).0, before, f.ctx.id, w.sched.seq),
        all_fitting(
            ran(w.frame_polled(f, waker, wall).0, before).with_frame(),
            after,
            f.ctx.id,
            w.sched.seq,
        ),
    ensures
        ({
            let c = f.ctx.id;
            let (first, p, r) = w.frame_polled(f, waker, wall);
            let g = FrameWaitFuture { phase: p, ..f };
            let eve = ran(first, before);
            let then = ran(eve.with_frame(), after);
            let now = eve.frame_polled(g, waker, late);
            let end = then.frame_polled(g, waker, late);
            &&& r is None
            &&& !eve.ctxs[c].canceled ==> now.2 is None && now.1 == p && end.2 == Some(
                Ok::<(), Seq<char>>(()),
            ) && end.0.ctxs[c].time == then.ctxs[c].time.larger(then.sched.now(late)).larger(
                then.sched.most_recent_desc_time,
            )
            &&& eve.ctxs[c].canceled ==> now.2 == Some(Err::<(), Seq<char>>("cancelled"@))
                && now.0.ctxs == eve.ctxs && end.2 == Some(
                Err::<(), Seq<char>>("cancelled"@),
            ) && end.0.ctxs == then.ctxs
        }),
{
    let c = f.ctx.id;
    let x = w.sched.seq;
    let first = w.frame_polled(f, waker, wall).0;
    let g = FrameWaitFuture { phase: WaitPhase::Registered { id: x }, ..f };
    lemma_first_poll(w, f, waker, wall);
    lemma_run_stands(first, before, c, x);
    let eve = ran(first, before);
    lemma_poll_tells(eve, g, waker, late, x);
    lemma_frame_settles(eve, c, x);
    lemma_run_settled(eve.with_frame(), after, c, x);
    lemma_poll_tells(ran(eve.with_frame(), after), g, waker, late, x);
}

} // verus!

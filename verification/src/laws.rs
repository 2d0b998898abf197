//! What holds of the library as a whole, for every state and every input.
use vstd::prelude::*;

use crate::barrier;
use crate::barrier::{BarrierView, BarrierWaiter};
use crate::context;
use crate::context::{
    BeatWaitFuture, BranchOptions, Ctx, TimeWaitFuture, WaitFuture, WaitPhase,
};
use crate::engine;
use crate::engine::Advance;
use crate::flt::order;
use crate::flt::Flt;
use crate::pq;
use crate::scheduler::{SchedView, WaitStateInner, WaiterKind};
use crate::tempo;
use crate::tempo::{TempoSegment, TempoView};
use crate::world::{CompletionState, WorldView};

verus! {

/// A wait that is settled stays as it is, whatever is said of it later, and
/// wakes nobody a second time.
pub proof fn settled_wait_stays(s: WaitStateInner)
    ensures
        s.after_ok().settled(),
        s.after_cancel().settled(),
        s.settled() ==> s.after_ok() == s && s.after_cancel() == s && s.wakes() is None,
        s.after_ok().after_cancel() == s.after_ok(),
        s.after_cancel().after_ok() == s.after_cancel(),
{
}

/// A wait never counts as both done and cancelled.
pub proof fn wait_ends_one_way(s: WaitStateInner)
    requires
        !(s.done && s.cancelled),
    ensures
        !(s.after_ok().done && s.after_ok().cancelled),
        !(s.after_cancel().done && s.after_cancel().cancelled),
{
}

/// A slice of time takes the waits for one time: all that are due at the
/// earliest time and no others, ordered by their sequence numbers.
pub proof fn time_slice_is_complete_and_ordered(s: SchedView, tempos: Map<u64, TempoView>)
    requires
        s.times.dom().finite(),
        pq::earliest(s.times).at_most(pq::earliest(s.heads)),
        forall|id: u64| #[trigger] s.times.contains_key(id) ==> s.times[id].1 == s.times[id].2.seq,
    ensures
        forall|id: u64|
            s.sliced(tempos).1.contains(id) <==> s.times.contains_key(id) && s.times[id].0
                == pq::earliest(s.times),
        forall|id: u64|
            s.sliced(tempos).0.times.contains_key(id) <==> s.times.contains_key(id)
                && s.times[id].0 != pq::earliest(s.times),
        forall|i: int, j: int|
            0 <= i < j < s.sliced(tempos).1.len() ==> s.times[#[trigger] s.sliced(
                tempos,
            ).1[i]].2.seq <= s.times[#[trigger] s.sliced(tempos).1[j]].2.seq,
{
    let t = pq::earliest(s.times);
    pq::due_comes_in_order(s.times, t);
    let ids = pq::due(s.times, t);
    assert forall|id: u64|
        ids.contains(id) <==> s.times.contains_key(id) && s.times[id].0 == t by {
        if ids.contains(id) {
            let i = choose|i: int| 0 <= i < ids.len() && ids[i] == id;
            assert(s.times.contains_key(ids[i]));
        }
    }
    assert forall|i: int, j: int| 0 <= i < j < ids.len() implies s.times[#[trigger] ids[i]].2.seq
        <= s.times[#[trigger] ids[j]].2.seq by {
        assert(pq::key_of(s.times, ids[i]).before(pq::key_of(s.times, ids[j])));
        assert(s.times.contains_key(ids[i]) && s.times.contains_key(ids[j]));
    }
}

/// A slice of beats takes the waits for one beat of one tempo: all that are
/// due at its earliest beat and no others, ordered by their sequence numbers.
pub proof fn beat_slice_is_complete_and_ordered(s: SchedView, tempos: Map<u64, TempoView>)
    requires
        !pq::earliest(s.times).at_most(pq::earliest(s.heads)),
        !s.heads.is_empty(),
        !s.beats_of(pq::first(s.heads)).is_empty(),
        s.beats_of(pq::first(s.heads)).dom().finite(),
        s.head_due(tempos, pq::first(s.heads)).finite(),
    ensures
        ({
            let q = s.beats_of(pq::first(s.heads));
            let ids = s.sliced(tempos).1;
            &&& forall|id: u64|
                ids.contains(id) <==> q.contains_key(id) && q[id].0 == pq::earliest(q)
            &&& forall|i: int, j: int|
                0 <= i < j < ids.len() ==> q[#[trigger] ids[i]].1 <= q[#[trigger] ids[j]].1
        }),
{
    let q = s.beats_of(pq::first(s.heads));
    let t = pq::earliest(q);
    pq::due_comes_in_order(q, t);
    let ids = pq::due(q, t);
    assert forall|id: u64| ids.contains(id) <==> q.contains_key(id) && q[id].0 == t by {
        if ids.contains(id) {
            let i = choose|i: int| 0 <= i < ids.len() && ids[i] == id;
            assert(q.contains_key(ids[i]));
        }
    }
    assert forall|i: int, j: int| 0 <= i < j < ids.len() implies q[#[trigger] ids[i]].1
        <= q[#[trigger] ids[j]].1 by {
        assert(pq::key_of(q, ids[i]).before(pq::key_of(q, ids[j])));
        assert(q.contains_key(ids[i]) && q.contains_key(ids[j]));
    }
}

/// No wait for a time is due before the time of the next event.
pub proof fn next_event_is_earliest(s: SchedView, t: Flt, id: u64)
    requires
        s.next_event() == Some(t),
        s.times.dom().finite(),
        s.times.contains_key(id),
        !s.times[id].0.nan(),
        !pq::earliest(s.times).nan(),
        !pq::earliest(s.heads).nan(),
    ensures
        t.at_most(s.times[id].0),
{
    pq::first_exists(s.times);
    let f = pq::first(s.times);
    assert(s.times.contains_key(f));
    let a = s.times[f].0;
    let b = s.times[id].0;
    if f != id {
        assert(pq::key_of(s.times, f).before(pq::key_of(s.times, id)));
        order::lemma_rank_orders(a, b);
    }
}

/// A waiter that was taken out is not queued any more, and the other waiters
/// of its kind are as they were.
pub proof fn cancelled_waiter_is_out(
    s: SchedView,
    tempos: Map<u64, TempoView>,
    id: u64,
    kind: WaiterKind,
    other: u64,
)
    requires
        other != id,
    ensures
        !s.without(tempos, id, kind).waiting(id, kind),
        s.without(tempos, id, kind).waiting(other, kind) == s.waiting(other, kind),
{
}

/// After a tempo change, the first wait for one of its beats is due when the
/// changed tempo reaches that beat.
pub proof fn tempo_change_retimes_waits(w: WorldView, id: u64, segs: Seq<TempoSegment>)
    requires
        !w.sched.beats_of(id).is_empty(),
        ({
            let q = w.sched.beats_of(id);
            tempo::time_at(segs, q[pq::first(q)].2.target_beat).finite()
        }),
    ensures
        ({
            let q = w.sched.beats_of(id);
            let v = w.with_tempo(id, segs);
            &&& v.sched.heads.contains_key(id)
            &&& v.sched.heads[id].0 == tempo::time_at(segs, q[pq::first(q)].2.target_beat)
            &&& v.sched.beats == w.sched.beats
        }),
{
}

/// A tempo change leaves every other tempo alone: its map, and when its waits
/// are due.
pub proof fn tempo_change_is_isolated(
    w: WorldView,
    id: u64,
    segs: Seq<TempoSegment>,
    other: u64,
)
    requires
        other != id,
    ensures
        w.with_tempo(id, segs).tempos.maps.contains_key(other) == w.tempos.maps.contains_key(
            other,
        ),
        w.tempos.maps.contains_key(other) ==> w.with_tempo(id, segs).tempos.maps[other]
            == w.tempos.maps[other],
        w.with_tempo(id, segs).sched.heads.contains_key(other) == w.sched.heads.contains_key(
            other,
        ),
        w.sched.heads.contains_key(other) ==> w.with_tempo(id, segs).sched.heads[other]
            == w.sched.heads[other],
        w.with_tempo(id, segs).sched.times == w.sched.times,
{
}

/// A child with a copy of its parent's tempo has the same beats at first, and
/// from then on the parent's changes do not reach it.
pub proof fn cloned_tempo_is_isolated(
    w: WorldView,
    parent: u64,
    t: Flt,
    opts: BranchOptions,
    done: Option<CompletionState>,
    segs: Seq<TempoSegment>,
)
    requires
        w.wf(),
        w.ctxs.contains_key(parent),
        opts.tempo is Cloned,
    ensures
        ({
            let v = w.with_child(parent, t, opts, done);
            let p = v.ctxs[parent].tempo;
            let c = v.ctxs[w.next_ctx].tempo;
            &&& p != c
            &&& v.tempos.maps[c].segs == v.tempos.maps[p].segs
            &&& v.with_tempo(p, segs).tempos.maps[c] == v.tempos.maps[c]
        }),
{
    let v = w.with_child(parent, t, opts, done);
    let p = v.ctxs[parent].tempo;
    let c = v.ctxs[w.next_ctx].tempo;
    assert(w.ctxs[parent].wf(w));
    assert(parent != w.next_ctx);
    tempo_change_is_isolated(v, p, segs, c);
}

/// A child that shares its parent's tempo sees the parent's changes.
pub proof fn shared_tempo_is_one(
    w: WorldView,
    parent: u64,
    t: Flt,
    opts: BranchOptions,
    done: Option<CompletionState>,
)
    requires
        w.wf(),
        w.ctxs.contains_key(parent),
        opts.tempo is Shared,
    ensures
        w.with_child(parent, t, opts, done).ctxs[w.next_ctx].tempo == w.with_child(
            parent,
            t,
            opts,
            done,
        ).ctxs[parent].tempo,
{
    assert(w.ctxs[parent].wf(w));
}

/// A child with a generator of its own draws what its seed says, whatever its
/// parent draws, and its parent draws the same with or without it.
pub proof fn forked_generators_are_independent(
    w: WorldView,
    parent: u64,
    t: Flt,
    opts: BranchOptions,
    done: Option<CompletionState>,
)
    requires
        w.wf(),
        w.ctxs.contains_key(parent),
        opts.rng is Forked,
    ensures
        ({
            let v = w.with_child(parent, t, opts, done);
            let c = w.next_ctx;
            &&& v.drawn(parent).1 == w.drawn(parent).1
            &&& v.drawn(c).0.drawn(parent).1 == w.drawn(parent).1
            &&& v.drawn(parent).0.drawn(c).1 == v.drawn(c).1
        }),
{
    assert(w.ctxs[parent].wf(w));
    assert(w.rngs.contains_key(w.ctxs[parent].rng));
}

/// Parent and child that share a generator draw from one stream: each draw
/// moves it on for both.
pub proof fn shared_generator_is_one_stream(
    w: WorldView,
    parent: u64,
    t: Flt,
    opts: BranchOptions,
    done: Option<CompletionState>,
)
    requires
        w.wf(),
        w.ctxs.contains_key(parent),
        opts.rng is Shared,
    ensures
        ({
            let v = w.with_child(parent, t, opts, done);
            let c = w.next_ctx;
            &&& v.drawn(c).1 == v.drawn(parent).1
            &&& v.drawn(c).0 == v.drawn(parent).0
        }),
{
    assert(w.ctxs[parent].wf(w));
}

/// A child starts at the time that its branch gives it, not cancelled,
/// waiting for nothing, in the tree of its parent, as its youngest child.
pub proof fn child_starts_fresh(
    w: WorldView,
    parent: u64,
    t: Flt,
    opts: BranchOptions,
    done: Option<CompletionState>,
)
    requires
        w.wf(),
        w.ctxs.contains_key(parent),
    ensures
        ({
            let v = w.with_child(parent, t, opts, done);
            let c = v.ctxs[w.next_ctx];
            &&& c.time == t
            &&& c.start_time == t
            &&& !c.canceled
            &&& c.waiters.len() == 0
            &&& c.root == w.ctxs[parent].root
            &&& v.ctxs[parent].children == w.ctxs[parent].children.push(w.next_ctx)
            &&& v.ctxs[parent].time == w.ctxs[parent].time
        }),
{
    assert(w.ctxs[parent].wf(w));
}

/// A wait of no beats, or of a number that is negative, infinite or NaN, is a
/// wait for the present time.
pub proof fn zero_beats_is_a_sync_point(w: WorldView, ctx: Ctx, beats: Flt)
    requires
        !beats.finite() || beats.at_most(Flt::zero()),
    ensures
        w.beat_wait(ctx, beats) == WaitFuture::Time(
            TimeWaitFuture { ctx, target_time: w.base(ctx.id), phase: WaitPhase::Fresh },
        ),
{
    order::lemma_zero();
}

/// No wait is for a time before the present: not for the time of its context,
/// nor for the latest that any wait has reached.
pub proof fn waits_never_aim_back(w: WorldView, id: u64, sec: Flt)
    requires
        !w.ctxs[id].time.nan(),
        !w.sched.most_recent_desc_time.nan(),
    ensures
        w.ctxs[id].time.at_most(w.base(id).plus(context::forward(sec))),
        w.sched.most_recent_desc_time.at_most(w.base(id).plus(context::forward(sec))),
{
    let base = w.base(id);
    let s = context::forward(sec);
    order::lemma_zero();
    order::larger_bounds(w.sched.most_recent_desc_time, w.ctxs[id].time);
    order::sum_never_shrinks(base, s);
}

/// A wait that is over has moved its context to the time it was for, exactly,
/// unless the context is past that already; it never moves it back. So one
/// wait after the other adds up without drift.
pub proof fn wait_lands_on_its_target(w: WorldView, f: TimeWaitFuture, waker: u64)
    requires
        w.ctxs.contains_key(f.ctx.id),
        w.ctxs[f.ctx.id].id == f.ctx.id,
        w.state_of(f.phase).done,
        !w.state_of(f.phase).cancelled,
        !f.target_time.nan(),
        !w.ctxs[f.ctx.id].time.nan(),
    ensures
        w.time_polled(f, waker).2 == Some(Ok::<(), Seq<char>>(())),
        w.ctxs[f.ctx.id].time.less(f.target_time) ==> w.time_polled(
            f,
            waker,
        ).0.ctxs[f.ctx.id].time == f.target_time,
        w.ctxs[f.ctx.id].time.at_most(w.time_polled(f, waker).0.ctxs[f.ctx.id].time),
        f.target_time.at_most(w.time_polled(f, waker).0.ctxs[f.ctx.id].time),
        w.time_polled(f, waker).0.sched.most_recent_desc_time == w.sched.most_recent_desc_time.larger(
            w.time_polled(f, waker).0.ctxs[f.ctx.id].time,
        ),
{
}

/// Waits do not drift: the next wait of a context counts from the time that the
/// last one was for, however late that was noticed.
pub proof fn next_wait_counts_from_the_target(w: WorldView, f: TimeWaitFuture, waker: u64)
    requires
        w.ctxs.contains_key(f.ctx.id),
        w.ctxs[f.ctx.id].id == f.ctx.id,
        w.state_of(f.phase).done,
        !w.state_of(f.phase).cancelled,
        w.ctxs[f.ctx.id].time.less(f.target_time),
        w.sched.most_recent_desc_time.at_most(f.target_time),
    ensures
        w.time_polled(f, waker).0.base(f.ctx.id).val() == f.target_time.val(),
        w.sched.most_recent_desc_time.less(f.target_time) ==> w.time_polled(f, waker).0.base(
            f.ctx.id,
        ) == f.target_time,
{
}

/// A wait for a beat that is over has moved its context to the time of that
/// beat under the tempo of the moment, unless the context is past it already.
pub proof fn beat_wait_lands_on_its_beat(w: WorldView, f: BeatWaitFuture, waker: u64)
    requires
        w.ctxs.contains_key(f.ctx.id),
        w.ctxs[f.ctx.id].id == f.ctx.id,
        w.state_of(f.phase).done,
        !w.state_of(f.phase).cancelled,
        !w.ctxs[f.ctx.id].time.nan(),
    ensures
        w.beat_polled(f, waker).2 == Some(Ok::<(), Seq<char>>(())),
        ({
            let due = tempo::time_at(w.tempos.maps[f.tempo_id].segs, f.target_beat);
            let after = w.beat_polled(f, waker).0.ctxs[f.ctx.id].time;
            &&& w.ctxs[f.ctx.id].time.at_most(after)
            &&& w.ctxs[f.ctx.id].time.less(due) ==> after == due
        }),
{
}

/// The end of a child that is waited for never moves its parent back, and
/// leaves it at the child's time or later.
pub proof fn joined_parent_catches_up(w: WorldView, parent: u64, child: u64, waker: u64)
    requires
        w.ctxs.contains_key(parent),
        w.ctxs[parent].id == parent,
        !w.ctxs[child].canceled,
        w.ctxs[child].completion matches Some(s) && s.done && !s.final_time.nan(),
        !w.ctxs[parent].time.nan(),
    ensures
        w.branch_polled(parent, child, waker).1 == Some(Ok::<(), Seq<char>>(())),
        w.ctxs[parent].time.at_most(w.branch_polled(parent, child, waker).0.ctxs[parent].time),
        w.ctxs[child].completion->Some_0.final_time.at_most(
            w.branch_polled(parent, child, waker).0.ctxs[parent].time,
        ),
{
}

/// Cancelling waiters touches no context and no tempo.
proof fn lemma_waiters_cancelled(w: WorldView, ws: Seq<(u64, WaiterKind)>)
    ensures
        w.with_waiters_cancelled(ws).ctxs == w.ctxs,
        w.with_waiters_cancelled(ws).tempos == w.tempos,
        w.with_waiters_cancelled(ws).fired == w.fired,
    decreases ws.len(),
{
    if ws.len() > 0 {
        lemma_waiters_cancelled(w, ws.drop_last());
    }
}

/// What a cancellation changes in the contexts: it makes none and drops none,
/// leaves older ones and everyone's children alone, and takes no cancellation
/// back.
pub open spec fn cancels_only(w: WorldView, v: WorldView, id: u64) -> bool {
    &&& v.ctxs.dom() == w.ctxs.dom()
    &&& forall|k: u64| #[trigger]
        w.ctxs.contains_key(k) ==> {
            &&& v.ctxs[k].id == w.ctxs[k].id
            &&& v.ctxs[k].children == w.ctxs[k].children
            &&& v.ctxs[k].time == w.ctxs[k].time
            &&& w.ctxs[k].canceled ==> v.ctxs[k] == w.ctxs[k]
            &&& k < id ==> v.ctxs[k] == w.ctxs[k]
        }
}

proof fn lemma_cancels_only_chain(a: WorldView, b: WorldView, c: WorldView, id: u64, k: u64)
    requires
        cancels_only(a, b, id),
        cancels_only(b, c, k),
        id <= k,
    ensures
        cancels_only(a, c, id),
{
    assert forall|j: u64| #[trigger] a.ctxs.contains_key(j) implies {
        &&& c.ctxs[j].id == a.ctxs[j].id
        &&& c.ctxs[j].children == a.ctxs[j].children
        &&& c.ctxs[j].time == a.ctxs[j].time
        &&& a.ctxs[j].canceled ==> c.ctxs[j] == a.ctxs[j]
        &&& j < id ==> c.ctxs[j] == a.ctxs[j]
    } by {
        assert(b.ctxs.contains_key(j));
    }
}

/// Cancelling a context changes nothing else: contexts that are older than
/// it, contexts that are cancelled already, and everyone's time and children
/// stay as they are.
pub proof fn cancel_touches_nothing_else(w: WorldView, id: u64)
    requires
        forall|k: u64| #[trigger] w.ctxs.contains_key(k) ==> w.ctxs[k].id == k,
    ensures
        cancels_only(w, w.cancelled(id), id),
    decreases u64::MAX - id, w.ctxs[id].children.len() + 1,
{
    if w.ctxs.contains_key(id) && !w.ctxs[id].canceled {
        let c = w.ctxs[id];
        let marked = w.with_mark(id);
        let quiet = marked.with_waiters_cancelled(c.waiters);
        lemma_waiters_cancelled(marked, c.waiters);
        assert(marked.ctxs.dom() =~= w.ctxs.dom());
        assert(cancels_only(w, quiet, id));
        lemma_children_cancelled(quiet, id, c.children, c.children.len());
        lemma_cancels_only_chain(
            w,
            quiet,
            quiet.with_children_cancelled(id, c.children, c.children.len()),
            id,
            id,
        );
    }
}

/// Cancelling children leaves the parent alone too.
proof fn lemma_children_cancelled(w: WorldView, id: u64, children: Seq<u64>, n: nat)
    requires
        forall|k: u64| #[trigger] w.ctxs.contains_key(k) ==> w.ctxs[k].id == k,
        n <= children.len(),
    ensures
        cancels_only(w, w.with_children_cancelled(id, children, n), id),
        w.ctxs.contains_key(id) ==> w.with_children_cancelled(id, children, n).ctxs[id]
            == w.ctxs[id],
    decreases u64::MAX - id, n,
{
    if n > 0 {
        let v = w.with_children_cancelled(id, children, (n - 1) as nat);
        lemma_children_cancelled(w, id, children, (n - 1) as nat);
        let k = children[n - 1];
        if id < k {
            assert forall|j: u64| #[trigger] v.ctxs.contains_key(j) implies v.ctxs[j].id == j by {
                assert(w.ctxs.contains_key(j));
            }
            cancel_touches_nothing_else(v, k);
            lemma_cancels_only_chain(w, v, v.cancelled(k), id, k);
            assert(w.ctxs.contains_key(id) ==> v.ctxs.contains_key(id));
        }
    }
}

/// A cancelled context is marked, waits for nothing, and has no handlers left
/// to run.
pub proof fn cancel_marks_the_context(w: WorldView, id: u64)
    requires
        forall|k: u64| #[trigger] w.ctxs.contains_key(k) ==> w.ctxs[k].id == k,
        w.ctxs.contains_key(id),
        !w.ctxs[id].canceled,
    ensures
        w.cancelled(id).ctxs[id].canceled,
        w.cancelled(id).ctxs[id].waiters.len() == 0,
        w.cancelled(id).ctxs[id].handlers.len() == 0,
{
    let c = w.ctxs[id];
    let marked = w.with_mark(id);
    let quiet = marked.with_waiters_cancelled(c.waiters);
    lemma_waiters_cancelled(marked, c.waiters);
    assert forall|k: u64| #[trigger] quiet.ctxs.contains_key(k) implies quiet.ctxs[k].id == k by {
        if k != id {
            assert(w.ctxs.contains_key(k));
        }
    }
    lemma_children_cancelled(quiet, id, c.children, c.children.len());
}

/// From `w` to `v` contexts were cancelled, and the handlers of each are to be
/// run; those of the others stay as they are.
pub open spec fn handlers_fired(w: WorldView, v: WorldView) -> bool {
    &&& w.fired.is_prefix_of(v.fired)
    &&& v.ctxs.dom() == w.ctxs.dom()
    &&& forall|k: u64| #[trigger]
        w.ctxs.contains_key(k) ==> {
            &&& v.ctxs[k].id == w.ctxs[k].id
            &&& w.ctxs[k].canceled ==> v.ctxs[k].canceled
            &&& w.ctxs[k].canceled == v.ctxs[k].canceled ==> v.ctxs[k].handlers
                == w.ctxs[k].handlers
            &&& !w.ctxs[k].canceled && v.ctxs[k].canceled ==> all_in(
                w.ctxs[k].handlers,
                v.fired,
            )
        }
}

/// The second sequence holds all of the first.
pub open spec fn all_in(a: Seq<u64>, b: Seq<u64>) -> bool {
    forall|x: u64| #[trigger] a.contains(x) ==> b.contains(x)
}

proof fn lemma_fired_chain(a: WorldView, b: WorldView, c: WorldView)
    requires
        handlers_fired(a, b),
        handlers_fired(b, c),
    ensures
        handlers_fired(a, c),
{
    assert forall|x: u64| b.fired.contains(x) implies #[trigger] c.fired.contains(x) by {
        let i = choose|i: int| 0 <= i < b.fired.len() && b.fired[i] == x;
        assert(c.fired[i] == x);
    }
    assert forall|k: u64| #[trigger] a.ctxs.contains_key(k) implies {
        &&& c.ctxs[k].id == a.ctxs[k].id
        &&& a.ctxs[k].canceled ==> c.ctxs[k].canceled
        &&& a.ctxs[k].canceled == c.ctxs[k].canceled ==> c.ctxs[k].handlers == a.ctxs[k].handlers
        &&& !a.ctxs[k].canceled && c.ctxs[k].canceled ==> all_in(a.ctxs[k].handlers, c.fired)
    } by {
        assert(b.ctxs.contains_key(k));
    }
}

/// Every handler runs: when a context is cancelled, by itself or with an
/// ancestor, its handlers are handed to the host, after those that were
/// already.
pub proof fn cancel_fires_every_handler(w: WorldView, id: u64)
    requires
        forall|k: u64| #[trigger] w.ctxs.contains_key(k) ==> w.ctxs[k].id == k,
    ensures
        handlers_fired(w, w.cancelled(id)),
    decreases u64::MAX - id, w.ctxs[id].children.len() + 1,
{
    if w.ctxs.contains_key(id) && !w.ctxs[id].canceled {
        let c = w.ctxs[id];
        let marked = w.with_mark(id);
        let quiet = marked.with_waiters_cancelled(c.waiters);
        lemma_waiters_cancelled(marked, c.waiters);
        assert(marked.ctxs.dom() =~= w.ctxs.dom());
        assert forall|x: u64| #[trigger] c.handlers.contains(x) implies quiet.fired.contains(x) by {
            let i = choose|i: int| 0 <= i < c.handlers.len() && c.handlers[i] == x;
            assert(quiet.fired[w.fired.len() + i] == x);
        }
        assert(handlers_fired(w, quiet));
        lemma_children_fired(quiet, id, c.children, c.children.len());
        lemma_fired_chain(
            w,
            quiet,
            quiet.with_children_cancelled(id, c.children, c.children.len()),
        );
    }
}

proof fn lemma_children_fired(w: WorldView, id: u64, children: Seq<u64>, n: nat)
    requires
        forall|k: u64| #[trigger] w.ctxs.contains_key(k) ==> w.ctxs[k].id == k,
    ensures
        handlers_fired(w, w.with_children_cancelled(id, children, n)),
    decreases u64::MAX - id, n,
{
    if n > 0 {
        let v = w.with_children_cancelled(id, children, (n - 1) as nat);
        lemma_children_fired(w, id, children, (n - 1) as nat);
        let k = children[n - 1];
        if id < k {
            assert forall|j: u64| #[trigger] v.ctxs.contains_key(j) implies v.ctxs[j].id == j by {
                assert(w.ctxs.contains_key(j));
            }
            cancel_fires_every_handler(v, k);
            lemma_fired_chain(w, v, v.cancelled(k));
        }
    }
}

/// Cancelling a context twice is cancelling it once.
pub proof fn cancel_is_idempotent(w: WorldView, id: u64)
    requires
        forall|k: u64| #[trigger] w.ctxs.contains_key(k) ==> w.ctxs[k].id == k,
    ensures
        w.cancelled(id).cancelled(id) == w.cancelled(id),
{
    if w.ctxs.contains_key(id) && !w.ctxs[id].canceled {
        cancel_marks_the_context(w, id);
    }
}

/// The waits of a cancelled context leave their queues for good.
pub proof fn cancelled_waits_leave_the_queues(w: WorldView, id: u64, i: int)
    requires
        w.ctxs.contains_key(id),
        !w.ctxs[id].canceled,
        0 <= i < w.ctxs[id].waiters.len(),
    ensures
        !w.cancelled(id).sched.waiting(w.ctxs[id].waiters[i].0, w.ctxs[id].waiters[i].1),
{
    let c = w.ctxs[id];
    let marked = w.with_mark(id);
    let quiet = marked.with_waiters_cancelled(c.waiters);
    let (k, kind) = c.waiters[i];
    lemma_waiters_leave(marked, c.waiters, k, kind);
    lemma_children_add_no_waits(quiet, id, c.children, c.children.len(), k, kind);
}

/// Cancelling waiters queues nobody, and leaves none of them queued.
pub proof fn lemma_waiters_leave(w: WorldView, ws: Seq<(u64, WaiterKind)>, k: u64, kind: WaiterKind)
    ensures
        !w.sched.waiting(k, kind) ==> !w.with_waiters_cancelled(ws).sched.waiting(k, kind),
        ws.contains((k, kind)) ==> !w.with_waiters_cancelled(ws).sched.waiting(k, kind),
    decreases ws.len(),
{
    if ws.len() > 0 {
        let init = ws.drop_last();
        lemma_waiters_leave(w, init, k, kind);
        let v = w.with_waiters_cancelled(init);
        let (id, other) = ws.last();
        assert(!v.sched.waiting(k, kind) ==> !v.with_waiter_cancelled(id, other).sched.waiting(
            k,
            kind,
        ));
        if ws.contains((k, kind)) {
            let i = choose|i: int| 0 <= i < ws.len() && ws[i] == (k, kind);
            if i < init.len() {
                assert(init[i] == (k, kind));
            }
        }
    }
}

/// A cancellation queues nobody.
pub proof fn lemma_cancel_adds_no_waits(w: WorldView, id: u64, k: u64, kind: WaiterKind)
    requires
        !w.sched.waiting(k, kind),
    ensures
        !w.cancelled(id).sched.waiting(k, kind),
    decreases u64::MAX - id, w.ctxs[id].children.len() + 1,
{
    if w.ctxs.contains_key(id) && !w.ctxs[id].canceled {
        let c = w.ctxs[id];
        let marked = w.with_mark(id);
        lemma_waiters_leave(marked, c.waiters, k, kind);
        lemma_children_add_no_waits(
            marked.with_waiters_cancelled(c.waiters),
            id,
            c.children,
            c.children.len(),
            k,
            kind,
        );
    }
}

/// Nor does cancelling children.
pub proof fn lemma_children_add_no_waits(
    w: WorldView,
    id: u64,
    children: Seq<u64>,
    n: nat,
    k: u64,
    kind: WaiterKind,
)
    requires
        !w.sched.waiting(k, kind),
    ensures
        !w.with_children_cancelled(id, children, n).sched.waiting(k, kind),
    decreases u64::MAX - id, n,
{
    if n > 0 {
        lemma_children_add_no_waits(w, id, children, (n - 1) as nat, k, kind);
        let c = children[n - 1];
        if id < c {
            lemma_cancel_adds_no_waits(
                w.with_children_cancelled(id, children, (n - 1) as nat),
                c,
                k,
                kind,
            );
        }
    }
}

/// One who waits for a barrier is let go at the time of the resolution, or at
/// its own time if that is later; never before.
pub proof fn barrier_lets_go_at_its_time(w: WorldView, x: BarrierWaiter, t: Flt, reach: bool)
    requires
        w.ctxs.contains_key(x.ctx),
        w.ctxs[x.ctx].id == x.ctx,
        !w.ctxs[x.ctx].canceled,
        !t.nan(),
        !w.ctxs[x.ctx].time.nan(),
    ensures
        t.at_most(w.with_waiter_freed(x, t, reach).ctxs[x.ctx].time),
        w.ctxs[x.ctx].time.at_most(w.with_waiter_freed(x, t, reach).ctxs[x.ctx].time),
        w.barrier_waits.contains_key(x.wait) && !w.barrier_waits[x.wait].settled()
            ==> w.with_waiter_freed(x, t, reach).barrier_waits[x.wait].done,
{
}

/// The wait of a cancelled context for a barrier is cancelled, and its time
/// stays.
pub proof fn barrier_does_not_move_cancelled(w: WorldView, x: BarrierWaiter, t: Flt, reach: bool)
    requires
        w.ctxs.contains_key(x.ctx),
        w.ctxs[x.ctx].canceled,
    ensures
        w.with_waiter_freed(x, t, reach).ctxs == w.ctxs,
        w.barrier_waits.contains_key(x.wait) && !w.barrier_waits[x.wait].settled()
            ==> w.with_waiter_freed(x, t, reach).barrier_waits[x.wait].cancelled,
{
}

/// Letting waiters go leaves the barriers alone.
proof fn lemma_freed_keeps_barriers(
    w: WorldView,
    xs: Seq<BarrierWaiter>,
    t: Flt,
    reach: bool,
)
    ensures
        w.with_waiters_freed(xs, t, reach).barriers == w.barriers,
    decreases xs.len(),
{
    if xs.len() > 0 {
        lemma_freed_keeps_barriers(w, xs.drop_last(), t, reach);
    }
}

/// After a barrier is resolved nobody waits for it, its cycle is over, and it
/// remembers the time.
pub proof fn resolved_barrier_is_empty(w: WorldView, ctx: u64, key: Seq<char>, i: int)
    requires
        barrier::stands_at(w.barriers, w.root_of(ctx), key, i),
    ensures
        w.barrier_resolved(ctx, key).barriers[i].waiters.len() == 0,
        !w.barrier_resolved(ctx, key).barriers[i].in_progress,
        w.barrier_resolved(ctx, key).barriers[i].resolved == w.ctxs[ctx].time,
{
    let root = w.root_of(ctx);
    barrier::lemma_at(w.barriers, root, key, i);
    let b = w.barriers[i];
    let t = w.ctxs[ctx].time;
    let emptied = BarrierView {
        resolved: t,
        in_progress: false,
        waiters: Seq::empty(),
        ..b
    };
    lemma_freed_keeps_barriers(w.with_barrier_at(i, emptied), b.waiters, t, true);
}

/// One who comes to a barrier that was resolved at its time or later passes
/// at once: the wait is over before it is polled.
pub proof fn passed_barrier_does_not_block(
    w: WorldView,
    v: WorldView,
    f: barrier::BarrierWaitView,
    waker: u64,
)
    requires
        f.already_resolved == w.barrier_passed(f.ctx.id, f.key),
        w.barrier_passed(f.ctx.id, f.key),
    ensures
        v.barrier_polled(f, waker).2 == Some(Ok::<(), Seq<char>>(())),
        v.barrier_polled(f, waker).0 == v,
{
}

/// A wait for a barrier is over once the barrier is resolved, also where that
/// happens before the wait is polled for the first time.
pub proof fn early_resolution_is_not_missed(
    w: WorldView,
    by: u64,
    f: barrier::BarrierWaitView,
    i: int,
    waker: u64,
)
    requires
        f.phase is Fresh,
        w.root_of(by) == f.root,
        barrier::stands_at(w.barriers, f.root, f.key, i),
        w.ctxs[f.ctx.id].time.at_most(w.ctxs[by].time),
        ({
            let v = w.barrier_resolved(by, f.key);
            v.ctxs[f.ctx.id].time == w.ctxs[f.ctx.id].time && !v.ctxs[f.ctx.id].canceled
        }),
    ensures
        ({
            let v = w.barrier_resolved(by, f.key);
            v.barrier_polled(f, waker).2 == Some(Ok::<(), Seq<char>>(()))
        }),
{
    barrier::lemma_at(w.barriers, f.root, f.key, i);
    resolved_barrier_is_empty(w, by, f.key, i);
    let v = w.barrier_resolved(by, f.key);
    let b = w.barriers[i];
    let t = w.ctxs[by].time;
    let emptied = BarrierView { resolved: t, in_progress: false, waiters: Seq::empty(), ..b };
    lemma_freed_keeps_barriers(w.with_barrier_at(i, emptied), b.waiters, t, true);
    assert(v.barriers == w.barriers.update(i, emptied));
    assert(barrier::stands_at(v.barriers, f.root, f.key, i));
    barrier::lemma_at(v.barriers, f.root, f.key, i);
}

/// An advance stops at its target: when its last drain is due, logical time
/// is the target, and nothing that waits is due by then.
pub proof fn advance_ends_at_its_target(w: WorldView, a: Advance)
    requires
        a.stage is First || a.stage is Slice,
        engine::advance_next(w, a).1.stage is Last,
    ensures
        engine::advance_next(w, a).0.sched.offline_now == a.target,
        w.sched.next_event() matches Some(t) ==> a.target.less(t),
{
}

/// An advance goes no further than its target: each slice is for the earliest
/// wait, and that is due by the target.
pub proof fn advance_stays_within_its_target(w: WorldView, a: Advance)
    requires
        a.stage is First || a.stage is Slice,
        engine::advance_next(w, a).1.stage is Slice,
    ensures
        w.sched.next_event() is Some,
        !a.target.less(w.sched.next_event()->Some_0),
        engine::advance_next(w, a).0 == w.at_time(w.sched.next_event()->Some_0).with_slice(),
{
}

/// Between two drains an advance takes one slice at most: the tasks that a
/// slice wakes run before the next slice is looked for.
pub proof fn one_slice_at_most_between_drains(w: WorldView, a: Advance)
    ensures
        ({
            let (v, b) = engine::advance_next(w, a);
            ||| v == w
            ||| v == w.at_time(a.target)
            ||| w.sched.next_event() matches Some(t) && v == w.at_time(t).with_slice()
        }),
{
}

/// The loop in real time ends when the root task has completed, whatever else
/// waits, and not before, unless the root is cancelled.
pub proof fn root_task_ends_the_loop(w: WorldView, root: u64, task: u64, wall: Flt)
    ensures
        !w.ctxs[root].canceled ==> (engine::complete_next(w, root, Some(task), wall).1 is Done
            <==> !w.tasks.live.contains(task)),
        !w.tasks.live.contains(task) ==> engine::complete_next(w, root, Some(task), wall).1 is Done,
{
}

/// In real time, too, one slice at most is taken between two drains.
pub proof fn one_slice_at_most_in_real_time(
    w: WorldView,
    done: bool,
    root: u64,
    task: Option<u64>,
    wall: Flt,
)
    ensures
        engine::until_next(w, done, wall).0 == w || engine::until_next(w, done, wall).0
            == w.with_slice(),
        engine::complete_next(w, root, task, wall).0 == w || engine::complete_next(w, root, task, wall).0
            == w.with_slice(),
{
}

/// A change of the rate does not move logical time: right after it, time is
/// what it was.
pub proof fn rate_change_keeps_the_time(s: SchedView, rate: Flt, wall: Flt)
    requires
        s.mode is Realtime,
        s.now(wall).finite(),
    ensures
        s.with_rate(rate, wall).now(Flt::zero()).val() == s.now(wall).val(),
        s.with_rate(rate, wall).now(Flt::zero()).finite(),
{
    let r = s.with_rate(rate, wall).rate;
    order::lemma_zero();
    order::lemma_one();
    vstd::arithmetic::power2::lemma_pow2_pos(1074);
    order::lemma_zero_times(r);
    order::lemma_plus_zero(s.now(wall));
}

/// An advance is never endless: every slice counts, and once there were too
/// many it stops.
pub proof fn advance_counts_its_slices(w: WorldView, a: Advance)
    requires
        a.stage is Slice,
        a.processed <= engine::MAX_TIMESLICES,
    ensures
        engine::advance_next(w, a).1.processed == a.processed + 1,
        a.processed == engine::MAX_TIMESLICES ==> engine::advance_next(w, a).1.stage is Overrun,
{
}

/// In real time nothing comes due early: a slice is taken only when logical
/// time has reached it, else the host sleeps.
pub proof fn realtime_never_runs_ahead(w: WorldView, done: bool, wall: Flt)
    ensures
        engine::until_next(w, done, wall).1 is Drain ==> {
            &&& w.sched.next_event() is Some
            &&& w.sched.next_event()->Some_0.at_most(w.sched.now(wall))
        },
        !(engine::until_next(w, done, wall).1 is Drain) ==> engine::until_next(w, done, wall).0
            == w,
{
}

} // verus!

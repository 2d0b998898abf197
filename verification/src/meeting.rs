//! Who meets at a barrier: what its resolution does to all who wait for it.
use vstd::prelude::*;

use crate::barrier;
use crate::barrier::{BarrierView, BarrierWaitView, BarrierWaiter};
use crate::context::WaitPhase;
use crate::flt;
use crate::flt::order;
use crate::flt::Flt;
use crate::moves::{BarrierMove, Move};
use crate::world::WorldView;

verus! {

/// One of these waits under that number.
pub open spec fn waits_under(xs: Seq<BarrierWaiter>, wait: u64) -> bool {
    exists|i: int| 0 <= i < xs.len() && (#[trigger] xs[i]).wait == wait
}

/// One of these is that context.
pub open spec fn comes(xs: Seq<BarrierWaiter>, ctx: u64) -> bool {
    exists|i: int| 0 <= i < xs.len() && (#[trigger] xs[i]).ctx == ctx
}

/// No two of these wait under one number.
pub open spec fn numbered(xs: Seq<BarrierWaiter>) -> bool {
    forall|i: int, j: int|
        0 <= i < xs.len() && 0 <= j < xs.len() && (#[trigger] xs[i]).wait == (
        #[trigger] xs[j]).wait ==> i == j
}

/// No two wait for one barrier under one number, and the numbers are used up in
/// order.
pub open spec fn all_numbered(w: WorldView) -> bool {
    forall|i: int|
        0 <= i < w.barriers.len() ==> {
            &&& numbered((#[trigger] w.barriers[i]).waiters)
            &&& forall|a: int|
                0 <= a < w.barriers[i].waiters.len() ==> (#[trigger] w.barriers[i].waiters[a]).wait
                    < w.next_barrier_wait
        }
}

/// What letting some go leaves as it was: which contexts there are, and of each
/// all but its time; how everyone else's waits stand; who is queued; and the
/// barriers.
pub open spec fn only_freed(w: WorldView, v: WorldView, xs: Seq<BarrierWaiter>) -> bool {
    &&& v.ctxs.dom() == w.ctxs.dom()
    &&& forall|c: u64| #[trigger]
        w.ctxs.contains_key(c) ==> {
            &&& v.ctxs[c] == crate::world::CtxView { time: v.ctxs[c].time, ..w.ctxs[c] }
            &&& !comes(xs, c) || w.ctxs[c].canceled ==> v.ctxs[c] == w.ctxs[c]
        }
    &&& v.barrier_waits.dom() == w.barrier_waits.dom()
    &&& forall|y: u64| #[trigger]
        w.barrier_waits.contains_key(y) ==> {
            &&& !waits_under(xs, y) ==> v.barrier_waits[y] == w.barrier_waits[y]
            &&& w.barrier_waits[y].settled() ==> v.barrier_waits[y] == w.barrier_waits[y]
        }
    &&& v.tasks.live == w.tasks.live
    &&& forall|k: u64| #[trigger] w.tasks.ready.contains(k) ==> v.tasks.ready.contains(k)
    &&& v.barriers == w.barriers
    &&& v.tempos == w.tempos
    &&& v.rngs == w.rngs
    &&& v.waits == w.waits
    &&& v.sched.times == w.sched.times
    &&& v.sched.beats == w.sched.beats
    &&& v.sched.frames == w.sched.frames
}

/// From `w` to `v`, one who waits for a barrier was let go at time `t`: the
/// context, where it is there and not cancelled, stands at the later of `t` and
/// its own time. Its wait, where it was pending, is done, or cancelled where
/// the context is, and the task of the wait is queued.
pub open spec fn let_go(w: WorldView, v: WorldView, x: BarrierWaiter, t: Flt) -> bool {
    let own = w.ctxs[x.ctx].time;
    let now = v.ctxs[x.ctx].time;
    &&& w.ctxs.contains_key(x.ctx) && !w.ctxs[x.ctx].canceled && !own.nan() && !t.nan() ==> {
        &&& own.at_most(now)
        &&& t.at_most(now)
        &&& now == own || now == t
    }
    &&& w.barrier_waits.contains_key(x.wait) ==> {
        let s = w.barrier_waits[x.wait];
        let r = v.barrier_waits[x.wait];
        &&& v.barrier_waits.contains_key(x.wait)
        &&& r.done || r.cancelled
        &&& !s.settled() ==> {
            &&& r.cancelled == (w.ctxs.contains_key(x.ctx) && w.ctxs[x.ctx].canceled)
            &&& r.done == !r.cancelled
            &&& s.waker matches Some(k) ==> w.tasks.live.contains(k) ==> v.tasks.ready.contains(k)
        }
    }
}

proof fn lemma_ready_push(s: Seq<u64>, k: u64)
    ensures
        s.push(k).contains(k),
        forall|j: u64| #[trigger] s.contains(j) ==> s.push(k).contains(j),
{
    assert(s.push(k)[s.len() as int] == k);
    assert forall|j: u64| #[trigger] s.contains(j) implies s.push(k).contains(j) by {
        let i = choose|i: int| 0 <= i < s.len() && s[i] == j;
        assert(s.push(k)[i] == j);
    }
}

/// One is let go.
proof fn lemma_one_freed(w: WorldView, x: BarrierWaiter, t: Flt, reach: bool)
    requires
        forall|c: u64| #[trigger] w.ctxs.contains_key(c) ==> w.ctxs[c].id == c,
    ensures
        only_freed(w, w.with_waiter_freed(x, t, reach), seq![x]),
        let_go(w, w.with_waiter_freed(x, t, reach), x, t),
        w.ctxs.contains_key(x.ctx) && !w.ctxs[x.ctx].canceled ==> w.with_waiter_freed(
            x,
            t,
            reach,
        ).ctxs[x.ctx].time == w.ctxs[x.ctx].time.larger(t),
{
    let v = w.with_waiter_freed(x, t, reach);
    assert(seq![x][0] == x);
    assert(waits_under(seq![x], x.wait) && comes(seq![x], x.ctx));
    assert(v.ctxs.dom() =~= w.ctxs.dom());
    assert(v.barrier_waits.dom() =~= w.barrier_waits.dom());
    if w.barrier_waits.contains_key(x.wait) {
        match w.barrier_waits[x.wait].wakes() {
            Some(k) => lemma_ready_push(w.tasks.ready, k),
            None => {},
        }
    }
}

/// All of these are let go.
proof fn lemma_all_freed(w: WorldView, xs: Seq<BarrierWaiter>, t: Flt, reach: bool)
    requires
        forall|c: u64| #[trigger] w.ctxs.contains_key(c) ==> w.ctxs[c].id == c,
        numbered(xs),
    ensures
        only_freed(w, w.with_waiters_freed(xs, t, reach), xs),
        forall|i: int|
            0 <= i < xs.len() ==> let_go(
                w,
                w.with_waiters_freed(xs, t, reach),
                #[trigger] xs[i],
                t,
            ),
        forall|c: u64| #[trigger]
            w.ctxs.contains_key(c) && comes(xs, c) && !w.ctxs[c].canceled
                ==> w.with_waiters_freed(xs, t, reach).ctxs[c].time == w.ctxs[c].time.larger(t),
    decreases xs.len(),
{
    let v = w.with_waiters_freed(xs, t, reach);
    if xs.len() == 0 {
    } else {
        let init = xs.drop_last();
        let x = xs.last();
        let u = w.with_waiters_freed(init, t, reach);
        lemma_all_freed(w, init, t, reach);
        assert forall|c: u64| #[trigger] u.ctxs.contains_key(c) implies u.ctxs[c].id == c by {
            assert(w.ctxs.contains_key(c));
        }
        lemma_one_freed(u, x, t, reach);
        assert forall|c: u64| comes(init, c) implies #[trigger] comes(xs, c) by {
            let i = choose|i: int| 0 <= i < init.len() && (#[trigger] init[i]).ctx == c;
            assert(xs[i].ctx == c);
        }
        assert(xs[xs.len() - 1] == x);
        assert(comes(xs, x.ctx) && waits_under(xs, x.wait));
        assert forall|y: u64| waits_under(init, y) implies #[trigger] waits_under(xs, y) by {
            let i = choose|i: int| 0 <= i < init.len() && (#[trigger] init[i]).wait == y;
            assert(xs[i].wait == y);
        }
        assert forall|c: u64| #[trigger] comes(xs, c) implies comes(init, c) || c == x.ctx by {
            let i = choose|i: int| 0 <= i < xs.len() && (#[trigger] xs[i]).ctx == c;
            if i < init.len() {
                assert(init[i].ctx == c);
            }
        }
        assert forall|c: u64| #[trigger] w.ctxs.contains_key(c) implies {
            &&& v.ctxs[c] == crate::world::CtxView { time: v.ctxs[c].time, ..w.ctxs[c] }
            &&& !comes(xs, c) || w.ctxs[c].canceled ==> v.ctxs[c] == w.ctxs[c]
            &&& comes(xs, c) && !w.ctxs[c].canceled ==> v.ctxs[c].time == w.ctxs[c].time.larger(t)
        } by {
            assert(u.ctxs.contains_key(c));
            assert(comes(seq![x], c) ==> c == x.ctx) by {
                if comes(seq![x], c) {
                    let i = choose|i: int|
                        0 <= i < seq![x].len() && (#[trigger] seq![x][i]).ctx == c;
                }
            }
        }
        assert forall|y: u64| #[trigger] w.barrier_waits.contains_key(y) implies {
            &&& !waits_under(xs, y) ==> v.barrier_waits[y] == w.barrier_waits[y]
            &&& w.barrier_waits[y].settled() ==> v.barrier_waits[y] == w.barrier_waits[y]
        } by {
            assert(u.barrier_waits.contains_key(y));
            assert(waits_under(seq![x], y) ==> y == x.wait) by {
                if waits_under(seq![x], y) {
                    let i = choose|i: int|
                        0 <= i < seq![x].len() && (#[trigger] seq![x][i]).wait == y;
                }
            }
        }
        assert forall|i: int| 0 <= i < xs.len() implies let_go(w, v, #[trigger] xs[i], t) by {
            let z = xs[i];
            assert(comes(xs, z.ctx));
            if w.barrier_waits.contains_key(z.wait) {
                assert(u.barrier_waits.contains_key(z.wait));
                if i < init.len() {
                    assert(init[i] == z);
                    assert(let_go(w, u, z, t));
                    assert(z.wait != x.wait);
                    assert(!waits_under(seq![x], z.wait)) by {
                        if waits_under(seq![x], z.wait) {
                            let j = choose|j: int|
                                0 <= j < seq![x].len() && (#[trigger] seq![x][j]).wait == z.wait;
                        }
                    }
                } else {
                    assert(!waits_under(init, x.wait)) by {
                        if waits_under(init, x.wait) {
                            let j = choose|j: int|
                                0 <= j < init.len() && (#[trigger] init[j]).wait == x.wait;
                            assert(xs[j].wait == x.wait);
                        }
                    }
                }
            }
            assert(w.ctxs.contains_key(z.ctx) ==> u.ctxs.contains_key(z.ctx));
        }
    }
}

/// When a barrier is resolved, all who wait for it are let go at the time of
/// the context that resolves it, whoever they are and however many: each moves
/// on to that time, each wait is settled, and each task is queued. Nothing
/// happens to anyone else, and no other barrier changes.
pub proof fn resolution_lets_everyone_go(w: WorldView, ctx: u64, key: Seq<char>, i: int)
    requires
        w.wf(),
        all_numbered(w),
        barrier::stands_at(w.barriers, w.root_of(ctx), key, i),
    ensures
        ({
            let v = w.barrier_resolved(ctx, key);
            let xs = w.barriers[i].waiters;
            let t = w.ctxs[ctx].time;
            &&& forall|a: int| 0 <= a < xs.len() ==> let_go(w, v, #[trigger] xs[a], t)
            &&& only_freed(WorldView { barriers: v.barriers, ..w }, v, xs)
            &&& v.barriers.len() == w.barriers.len()
            &&& forall|j: int|
                0 <= j < w.barriers.len() && j != i ==> #[trigger] v.barriers[j] == w.barriers[j]
            &&& v.barriers[i].named(w.root_of(ctx), key)
            &&& v.barriers[i].waiters.len() == 0
            &&& !v.barriers[i].in_progress
            &&& v.barriers[i].resolved == t
        }),
{
    let b = w.barriers[i];
    let t = w.ctxs[ctx].time;
    barrier::lemma_at(w.barriers, w.root_of(ctx), key, i);
    let u = w.with_barrier_at(
        i,
        BarrierView { resolved: t, in_progress: false, waiters: Seq::empty(), ..b },
    );
    let v = w.barrier_resolved(ctx, key);
    lemma_all_freed(u, b.waiters, t, true);
    assert(v.barriers == u.barriers);
    assert(u == WorldView { barriers: v.barriers, ..w });
    assert forall|a: int| 0 <= a < b.waiters.len() implies let_go(w, v, #[trigger] b.waiters[a], t)
        by {
        assert(let_go(u, v, b.waiters[a], t));
    }
}

/// A resolution moves up the latest time that any wait has reached to where it
/// leaves those whom it lets go.
pub proof fn resolution_is_reached(w: WorldView, ctx: u64, key: Seq<char>, i: int, a: int)
    requires
        w.wf(),
        all_numbered(w),
        barrier::stands_at(w.barriers, w.root_of(ctx), key, i),
        0 <= a < w.barriers[i].waiters.len(),
        w.ctxs.contains_key(w.barriers[i].waiters[a].ctx),
        !w.ctxs[w.barriers[i].waiters[a].ctx].canceled,
        !w.sched.most_recent_desc_time.nan(),
        !w.ctxs[ctx].time.nan(),
        !w.ctxs[w.barriers[i].waiters[a].ctx].time.nan(),
    ensures
        ({
            let v = w.barrier_resolved(ctx, key);
            &&& w.sched.most_recent_desc_time.at_most(v.sched.most_recent_desc_time)
            &&& w.ctxs[ctx].time.at_most(v.sched.most_recent_desc_time)
        }),
{
    let b = w.barriers[i];
    let t = w.ctxs[ctx].time;
    barrier::lemma_at(w.barriers, w.root_of(ctx), key, i);
    let u = w.with_barrier_at(
        i,
        BarrierView { resolved: t, in_progress: false, waiters: Seq::empty(), ..b },
    );
    lemma_reach(u, b.waiters, t, a);
}

proof fn lemma_reach(w: WorldView, xs: Seq<BarrierWaiter>, t: Flt, a: int)
    requires
        forall|c: u64| #[trigger] w.ctxs.contains_key(c) ==> w.ctxs[c].id == c,
        numbered(xs),
        !w.sched.most_recent_desc_time.nan(),
        !t.nan(),
        0 <= a < xs.len() ==> w.ctxs.contains_key(xs[a].ctx) && !w.ctxs[xs[a].ctx].canceled,
    ensures
        ({
            let v = w.with_waiters_freed(xs, t, true);
            &&& w.sched.most_recent_desc_time.at_most(v.sched.most_recent_desc_time)
            &&& 0 <= a < xs.len() ==> t.at_most(v.sched.most_recent_desc_time)
        }),
    decreases xs.len(),
{
    if xs.len() > 0 {
        let init = xs.drop_last();
        let u = w.with_waiters_freed(init, t, true);
        lemma_reach(w, init, t, a);
        lemma_all_freed(w, init, t, true);
        let x = xs.last();
        if w.ctxs.contains_key(x.ctx) {
            assert(u.ctxs.contains_key(x.ctx));
        }
    }
}

/// A new cycle of a barrier that is under way first lets everyone go who still
/// waits in the old one, at the time at which the barrier was last resolved.
/// Either way the barrier is under way then, from the time of the context on.
pub proof fn new_cycle_leaves_nobody_behind(w: WorldView, ctx: u64, key: Seq<char>, i: int)
    requires
        w.wf(),
        all_numbered(w),
        w.ctxs.contains_key(ctx),
        barrier::stands_at(w.barriers, w.root_of(ctx), key, i),
    ensures
        ({
            let v = w.barrier_started(ctx, key);
            let b = w.barriers[i];
            &&& b.in_progress ==> forall|a: int|
                0 <= a < b.waiters.len() ==> let_go(w, v, #[trigger] b.waiters[a], b.resolved)
            &&& b.in_progress ==> v.barriers[i].waiters.len() == 0
            &&& !b.in_progress ==> v.barriers[i].waiters == b.waiters
            &&& !b.in_progress ==> v.ctxs == w.ctxs && v.barrier_waits == w.barrier_waits
            &&& v.barriers[i].in_progress
            &&& v.barriers[i].start == v.ctxs[ctx].time
            &&& v.barriers[i].resolved == b.resolved
            &&& v.barriers[i].named(w.root_of(ctx), key)
            &&& v.barriers.len() == w.barriers.len()
            &&& forall|j: int|
                0 <= j < w.barriers.len() && j != i ==> #[trigger] v.barriers[j] == w.barriers[j]
        }),
{
    let b = w.barriers[i];
    barrier::lemma_at(w.barriers, w.root_of(ctx), key, i);
    let v = w.barrier_started(ctx, key);
    if b.in_progress {
        let u = w.with_barrier_at(i, BarrierView { waiters: Seq::empty(), ..b });
        let f = u.with_waiters_freed(b.waiters, b.resolved, false);
        lemma_all_freed(u, b.waiters, b.resolved, false);
        assert forall|a: int| 0 <= a < b.waiters.len() implies let_go(
            w,
            v,
            #[trigger] b.waiters[a],
            b.resolved,
        ) by {
            assert(let_go(u, f, b.waiters[a], b.resolved));
        }
    }
}

/// Who comes to a barrier that nobody has resolved since waits: the first poll
/// puts the context last among those who wait, under a number of its own.
pub proof fn first_poll_joins_the_others(
    w: WorldView,
    f: BarrierWaitView,
    waker: u64,
    i: int,
)
    requires
        w.wf(),
        all_numbered(w),
        w.ctxs.contains_key(f.ctx.id),
        w.next_barrier_wait < u64::MAX,
        barrier::stands_at(w.barriers, f.root, f.key, i),
        f.phase is Fresh,
        !f.already_resolved,
        !w.ctxs[f.ctx.id].canceled,
        !w.ctxs[f.ctx.id].time.at_most(w.barriers[i].resolved),
    ensures
        ({
            let (v, p, r) = w.barrier_polled(f, waker);
            let x = v.barriers[i].waiters.last();
            &&& r is None
            &&& p == (WaitPhase::Registered { id: x.wait })
            &&& x.ctx == f.ctx.id
            &&& v.barriers[i].waiters.len() == w.barriers[i].waiters.len() + 1
            &&& v.barriers[i].waiters.drop_last() == w.barriers[i].waiters
            &&& v.barriers[i].named(f.root, f.key)
            &&& v.barriers[i].resolved == w.barriers[i].resolved
            &&& v.barrier_waits.contains_key(x.wait)
            &&& !v.barrier_waits[x.wait].settled()
            &&& v.barrier_waits[x.wait].waker == Some(waker)
            &&& v.ctxs == w.ctxs
            &&& v.tasks == w.tasks
            &&& barrier::stands_at(v.barriers, f.root, f.key, i)
            &&& all_numbered(v)
        }),
{
    barrier::lemma_at(w.barriers, f.root, f.key, i);
    let v = w.barrier_polled(f, waker).0;
    let old_waiters = w.barriers[i].waiters;
    let new_waiters = v.barriers[i].waiters;
    assert(new_waiters.drop_last() =~= old_waiters);
    lemma_joined_numbered(w, v, i);
    assert forall|j: int| 0 <= j < i implies !(#[trigger] v.barriers[j]).named(f.root, f.key) by {
        assert(!w.barriers[j].named(f.root, f.key));
    }
}

proof fn lemma_joined_numbered(w: WorldView, v: WorldView, i: int)
    requires
        all_numbered(w),
        0 <= i < w.barriers.len(),
        w.next_barrier_wait < u64::MAX,
        v.next_barrier_wait == w.next_barrier_wait + 1,
        v.barriers.len() == w.barriers.len(),
        forall|j: int|
            0 <= j < w.barriers.len() && j != i ==> #[trigger] v.barriers[j] == w.barriers[j],
        v.barriers[i].waiters.len() == w.barriers[i].waiters.len() + 1,
        v.barriers[i].waiters.drop_last() == w.barriers[i].waiters,
        v.barriers[i].waiters.last().wait == w.next_barrier_wait,
    ensures
        all_numbered(v),
{
    assert forall|j: int| 0 <= j < v.barriers.len() implies {
        &&& numbered((#[trigger] v.barriers[j]).waiters)
        &&& forall|a: int|
            0 <= a < v.barriers[j].waiters.len() ==> (#[trigger] v.barriers[j].waiters[a]).wait
                < v.next_barrier_wait
    } by {
        assert(numbered(w.barriers[j].waiters));
        let s = w.barriers[j].waiters;
        let n = v.barriers[j].waiters;
        assert forall|a: int| 0 <= a < n.len() implies (#[trigger] n[a]).wait < v.next_barrier_wait
            by {
            if a < s.len() {
                assert(s[a] == n[a]);
            }
        }
        assert forall|a: int, b: int|
            0 <= a < n.len() && 0 <= b < n.len() && (#[trigger] n[a]).wait == (
            #[trigger] n[b]).wait implies a == b by {
            if a < s.len() {
                assert(s[a] == n[a]);
            }
            if b < s.len() {
                assert(s[b] == n[b]);
            }
        }
    }
}

/// Where the barrier was resolved at the time of the context or later, the first
/// poll does not wait: the context moves on to the time of the resolution, and
/// that counts as reached. Nobody else moves.
pub proof fn first_poll_after_a_resolution_passes(
    w: WorldView,
    f: BarrierWaitView,
    waker: u64,
    i: int,
)
    requires
        w.ctxs.contains_key(f.ctx.id),
        w.ctxs[f.ctx.id].id == f.ctx.id,
        barrier::stands_at(w.barriers, f.root, f.key, i),
        f.phase is Fresh,
        !f.already_resolved,
        !w.ctxs[f.ctx.id].canceled,
        w.ctxs[f.ctx.id].time.at_most(w.barriers[i].resolved),
        !w.sched.most_recent_desc_time.nan(),
    ensures
        ({
            let (v, p, r) = w.barrier_polled(f, waker);
            let met = w.barriers[i].resolved;
            let c = v.ctxs[f.ctx.id];
            &&& r == Some(Ok::<(), Seq<char>>(()))
            &&& p is Done
            &&& c.time.val() == met.val()
            &&& c == crate::world::CtxView { time: c.time, ..w.ctxs[f.ctx.id] }
            &&& forall|k: u64| k != f.ctx.id ==> #[trigger] v.ctxs[k] == w.ctxs[k]
            &&& met.at_most(v.sched.most_recent_desc_time)
            &&& w.sched.most_recent_desc_time.at_most(v.sched.most_recent_desc_time)
            &&& v.barriers == w.barriers
            &&& v.barrier_waits == w.barrier_waits
            &&& v.tasks == w.tasks
        }),
{
    barrier::lemma_at(w.barriers, f.root, f.key, i);
}

/// From the first poll to the last: who waits for a barrier is let go when any
/// context of the tree resolves it. The wait ends well, at the time of the
/// resolution or at the own time if that is later, and its task is queued.
pub proof fn await_ends_with_the_resolution(
    w: WorldView,
    f: BarrierWaitView,
    waker: u64,
    by: u64,
    i: int,
    again: u64,
)
    requires
        w.wf(),
        all_numbered(w),
        w.ctxs.contains_key(f.ctx.id),
        w.next_barrier_wait < u64::MAX,
        barrier::stands_at(w.barriers, f.root, f.key, i),
        w.root_of(by) == f.root,
        f.phase is Fresh,
        !f.already_resolved,
        !w.ctxs[f.ctx.id].canceled,
        !w.ctxs[f.ctx.id].time.at_most(w.barriers[i].resolved),
        !w.ctxs[f.ctx.id].time.nan(),
        !w.ctxs[by].time.nan(),
    ensures
        ({
            let (v, p, r) = w.barrier_polled(f, waker);
            let u = v.barrier_resolved(by, f.key);
            let own = w.ctxs[f.ctx.id].time;
            let (z, _, end) = u.barrier_polled(BarrierWaitView { phase: p, ..f }, again);
            &&& r is None
            &&& end == Some(Ok::<(), Seq<char>>(()))
            &&& own.at_most(z.ctxs[f.ctx.id].time)
            &&& w.ctxs[by].time.at_most(z.ctxs[f.ctx.id].time)
            &&& z.ctxs[f.ctx.id].time == own || z.ctxs[f.ctx.id].time == w.ctxs[by].time
            &&& w.tasks.live.contains(waker) ==> u.tasks.ready.contains(waker)
        }),
{
    first_poll_joins_the_others(w, f, waker, i);
    let (v, p, r) = w.barrier_polled(f, waker);
    let u = v.barrier_resolved(by, f.key);
    let xs = v.barriers[i].waiters;
    assert(v.wf()) by {
        assert(v.ctxs == w.ctxs && v.rngs == w.rngs && v.tempos == w.tempos && v.sched
            == w.sched);
        assert forall|id: u64| #[trigger] v.ctxs.contains_key(id) implies v.ctxs[id].id == id
            && v.ctxs[id].wf(v) by {
            assert(w.ctxs[id].wf(w));
        }
    }
    assert(v.root_of(by) == w.root_of(by));
    resolution_lets_everyone_go(v, by, f.key, i);
    assert(let_go(v, u, xs[xs.len() - 1], v.ctxs[by].time));
}

/// A poll of a wait for a barrier that nobody has resolved yet changes nothing
/// but the task to wake. Once it is settled, the next poll says how, and forgets
/// it; a context that is cancelled does not even begin to wait.
pub proof fn later_polls_only_ask(w: WorldView, f: BarrierWaitView, waker: u64)
    requires
        !f.already_resolved,
    ensures
        ({
            let (v, p, r) = w.barrier_polled(f, waker);
            &&& f.phase matches WaitPhase::Registered { id } ==> w.barrier_waits.contains_key(id)
                ==> {
                let s = w.barrier_waits[id];
                &&& !s.done && !s.cancelled ==> {
                    &&& r is None
                    &&& p == f.phase
                    &&& v.barrier_waits[id].waker == Some(waker)
                    &&& !v.barrier_waits[id].settled()
                    &&& forall|x: u64|
                        x != id ==> #[trigger] v.barrier_waits[x] == w.barrier_waits[x]
                    &&& v == WorldView { barrier_waits: v.barrier_waits, ..w }
                }
                &&& s.cancelled ==> r is Some && r->Some_0 is Err && p is Cancelled
                &&& s.done && !s.cancelled ==> r == Some(Ok::<(), Seq<char>>(())) && p is Done
                &&& s.settled() ==> v == WorldView {
                    barrier_waits: w.barrier_waits.remove(id),
                    ..w
                }
            }
            &&& f.phase is Done ==> r == Some(Ok::<(), Seq<char>>(())) && p is Done && v == w
            &&& f.phase is Cancelled ==> r is Some && r->Some_0 is Err && p is Cancelled && v == w
            &&& f.phase is Fresh && w.ctxs[f.ctx.id].canceled ==> {
                &&& r is Some
                &&& r->Some_0 is Err
                &&& p is Cancelled
                &&& v == WorldView { tasks: v.tasks, ..w }
            }
        }),
{
}

/// Trees and names keep barriers apart: a resolution changes no barrier of
/// another tree, and none of another name. So does the start of a cycle, after
/// which there is a barrier of that name in that tree, and it is under way.
pub proof fn barriers_are_apart(w: WorldView, ctx: u64, key: Seq<char>, j: int)
    requires
        0 <= j < w.barriers.len(),
        w.barriers[j].root != w.root_of(ctx) || w.barriers[j].key != key,
    ensures
        w.barrier_resolved(ctx, key).barriers.len() == w.barriers.len(),
        w.barrier_resolved(ctx, key).barriers[j] == w.barriers[j],
        w.barrier_started(ctx, key).barriers.len() >= w.barriers.len(),
        w.barrier_started(ctx, key).barriers[j] == w.barriers[j],
        w.barrier_reached(ctx, key).barriers[j] == w.barriers[j],
        exists|i: int|
            0 <= i < w.barrier_started(ctx, key).barriers.len() && {
                let b = #[trigger] w.barrier_started(ctx, key).barriers[i];
                b.root == w.root_of(ctx) && b.key == key && b.in_progress
            },
{
    let root = w.root_of(ctx);
    if barrier::has(w.barriers, root, key) {
        lemma_found(w.barriers, root, key);
        let i = barrier::at(w.barriers, root, key);
        let b = w.barriers[i];
        let t = w.ctxs[ctx].time;
        lemma_freed_barriers(
            w.with_barrier_at(
                i,
                BarrierView { resolved: t, in_progress: false, waiters: Seq::empty(), ..b },
            ),
            b.waiters,
            t,
            true,
        );
    }
    let u = w.with_barrier(root, key);
    assert(barrier::has(u.barriers, root, key)) by {
        if !barrier::has(w.barriers, root, key) {
            assert(u.barriers[w.barriers.len() as int].named(root, key));
        }
    }
    lemma_found(u.barriers, root, key);
    let i = barrier::at(u.barriers, root, key);
    let b = u.barriers[i];
    lemma_freed_barriers(
        u.with_barrier_at(i, BarrierView { waiters: Seq::empty(), ..b }),
        b.waiters,
        b.resolved,
        false,
    );
    let v = w.barrier_started(ctx, key);
    assert(v.barriers[i].root == root && v.barriers[i].key == key && v.barriers[i].in_progress);
}

/// A barrier that was never resolved lets nobody pass, at whatever time: not
/// where it is made by the first who comes, nor where it is made by the start of
/// a cycle.
pub proof fn new_barrier_lets_nobody_pass(w: WorldView, ctx: u64, key: Seq<char>, by: u64)
    requires
        w.ctxs.contains_key(ctx),
        w.ctxs.contains_key(by),
        w.root_of(by) == w.root_of(ctx),
        !barrier::has(w.barriers, w.root_of(ctx), key),
        w.ctxs[ctx].time.finite(),
    ensures
        !w.barrier_passed(ctx, key),
        !w.barrier_started(by, key).barrier_passed(ctx, key),
        w.barrier_reached(ctx, key).ctxs == w.ctxs,
        ({
            let bs = w.barrier_started(by, key).barriers;
            &&& bs.len() == w.barriers.len() + 1
            &&& bs.drop_last() == w.barriers
            &&& bs.last().waiters.len() == 0
        }),
{
    let root = w.root_of(ctx);
    let u = w.with_barrier(root, key);
    let n = w.barriers.len() as int;
    assert(u.barriers[n].named(root, key));
    assert(barrier::has(u.barriers, root, key));
    lemma_found(u.barriers, root, key);
    let i = barrier::at(u.barriers, root, key);
    assert(i == n) by {
        if i < n {
            assert(w.barriers[i].named(root, key));
        }
    }
    order::lemma_zero();
    let t = w.ctxs[ctx].time;
    flt::lemma_weight_step(t.mag());
    flt::lemma_weight_lt(t.mag(), flt::INF_MAG as int);
    assert(Flt::neg_infinity().mag() == flt::INF_MAG);
    assert(!t.at_most(Flt::neg_infinity()));
    let v = w.barrier_started(by, key);
    assert(v.barriers[n].named(root, key));
    assert(barrier::stands_at(v.barriers, root, key, n)) by {
        assert forall|j: int| 0 <= j < n implies !(#[trigger] v.barriers[j]).named(root, key) by {
            assert(v.barriers[j] == u.barriers[j]);
            assert(u.barriers[j] == w.barriers[j]);
        }
    }
    barrier::lemma_at(v.barriers, root, key, n);
    assert(v.with_barrier(root, key) == v);
    assert(v.barriers.drop_last() =~= w.barriers);
}

/// Who comes late does not wait: where the barrier was resolved at the time of
/// the context or later, the context moves on to the time of the resolution.
/// Where it was not, nobody moves.
pub proof fn late_comers_catch_up(w: WorldView, ctx: u64, key: Seq<char>, i: int)
    requires
        w.ctxs.contains_key(ctx),
        w.ctxs[ctx].id == ctx,
        barrier::stands_at(w.barriers, w.root_of(ctx), key, i),
        !w.ctxs[ctx].time.nan(),
        !w.barriers[i].resolved.nan(),
        !w.sched.most_recent_desc_time.nan(),
    ensures
        ({
            let v = w.barrier_reached(ctx, key);
            let own = w.ctxs[ctx].time;
            let met = w.barriers[i].resolved;
            let now = v.ctxs[ctx].time;
            &&& w.barrier_passed(ctx, key) <==> own.at_most(met)
            &&& own.at_most(met) ==> now.val() == met.val()
            &&& own.at_most(met) ==> met.at_most(v.sched.most_recent_desc_time)
            &&& w.sched.most_recent_desc_time.at_most(v.sched.most_recent_desc_time)
            &&& v.ctxs[ctx] == crate::world::CtxView { time: now, ..w.ctxs[ctx] }
            &&& forall|k: u64| k != ctx ==> #[trigger] v.ctxs[k] == w.ctxs[k]
            &&& !own.at_most(met) ==> v == w
            &&& v.barriers == w.barriers
        }),
{
    barrier::lemma_at(w.barriers, w.root_of(ctx), key, i);
}

/// Every move leaves the waits for barriers numbered apart.
pub proof fn moves_keep_numbered(w: WorldView, m: BarrierMove)
    requires
        w.wf(),
        all_numbered(w),
        w.next_barrier_wait < u64::MAX,
    ensures
        all_numbered(w.after(Move::Barrier(m))),
{
    reveal(WorldView::after_barrier);
    let v = w.after(Move::Barrier(m));
    match m {
        BarrierMove::Start { ctx, key } => {
            lemma_with_barrier(w, w.root_of(ctx), key);
            let u = w.with_barrier(w.root_of(ctx), key);
            let i = barrier::at(u.barriers, w.root_of(ctx), key);
            let b = u.barriers[i];
            if b.in_progress {
                let e = u.with_barrier_at(i, BarrierView { waiters: Seq::empty(), ..b });
                lemma_freed_barriers(e, b.waiters, b.resolved, false);
            }
            lemma_fewer(u, v);
        },
        BarrierMove::Resolve { ctx, key } => {
            if barrier::has(w.barriers, w.root_of(ctx), key) {
                lemma_found(w.barriers, w.root_of(ctx), key);
                let i = barrier::at(w.barriers, w.root_of(ctx), key);
                let b = w.barriers[i];
                let t = w.ctxs[ctx].time;
                let e = w.with_barrier_at(
                    i,
                    BarrierView { resolved: t, in_progress: false, waiters: Seq::empty(), ..b },
                );
                lemma_freed_barriers(e, b.waiters, t, true);
            }
            lemma_fewer(w, v);
        },
        BarrierMove::Reach { ctx, key } => {
            lemma_with_barrier(w, w.root_of(ctx), key);
            lemma_fewer(w.with_barrier(w.root_of(ctx), key), v);
        },
        BarrierMove::Poll { wait, waker } => {
            if v.barriers == w.barriers {
                lemma_fewer(w, v);
            } else {
                lemma_found(w.barriers, wait.root, wait.key);
                let i = barrier::at(w.barriers, wait.root, wait.key);
                assert(v.barriers[i].waiters.drop_last() =~= w.barriers[i].waiters);
                lemma_joined_numbered(w, v, i);
            }
        },
        BarrierMove::Clear => {},
    }
}

proof fn lemma_found(bs: Seq<BarrierView>, root: u64, key: Seq<char>)
    requires
        barrier::has(bs, root, key),
    ensures
        barrier::stands_at(bs, root, key, barrier::at(bs, root, key)),
{
    let i = choose|i: int| 0 <= i < bs.len() && (#[trigger] bs[i]).named(root, key);
    lemma_first_named(bs, root, key, i);
    let k = choose|k: int| barrier::stands_at(bs, root, key, k);
    assert(barrier::stands_at(bs, root, key, k));
}

proof fn lemma_first_named(bs: Seq<BarrierView>, root: u64, key: Seq<char>, i: int)
    requires
        0 <= i < bs.len(),
        bs[i].named(root, key),
    ensures
        exists|k: int| barrier::stands_at(bs, root, key, k),
    decreases i,
{
    if exists|j: int| 0 <= j < i && (#[trigger] bs[j]).named(root, key) {
        let j = choose|j: int| 0 <= j < i && (#[trigger] bs[j]).named(root, key);
        lemma_first_named(bs, root, key, j);
    } else {
        assert(barrier::stands_at(bs, root, key, i));
    }
}

proof fn lemma_with_barrier(w: WorldView, root: u64, key: Seq<char>)
    requires
        all_numbered(w),
    ensures
        all_numbered(w.with_barrier(root, key)),
        barrier::has(w.with_barrier(root, key).barriers, root, key),
        barrier::stands_at(
            w.with_barrier(root, key).barriers,
            root,
            key,
            barrier::at(w.with_barrier(root, key).barriers, root, key),
        ),
{
    let v = w.with_barrier(root, key);
    if !barrier::has(w.barriers, root, key) {
        assert(v.barriers[w.barriers.len() as int].named(root, key));
        assert forall|i: int| 0 <= i < v.barriers.len() implies {
            &&& numbered((#[trigger] v.barriers[i]).waiters)
            &&& forall|a: int|
                0 <= a < v.barriers[i].waiters.len() ==> (#[trigger] v.barriers[i].waiters[a]).wait
                    < v.next_barrier_wait
        } by {
            if i < w.barriers.len() {
                assert(v.barriers[i] == w.barriers[i]);
            }
        }
    }
    lemma_found(v.barriers, root, key);
}

/// Letting some go leaves the barriers and the numbers as they were.
proof fn lemma_freed_barriers(w: WorldView, xs: Seq<BarrierWaiter>, t: Flt, reach: bool)
    ensures
        w.with_waiters_freed(xs, t, reach).barriers == w.barriers,
        w.with_waiters_freed(xs, t, reach).next_barrier_wait == w.next_barrier_wait,
    decreases xs.len(),
{
    if xs.len() > 0 {
        lemma_freed_barriers(w, xs.drop_last(), t, reach);
    }
}

/// Each barrier keeps those who wait for it, or loses all of them.
proof fn lemma_fewer(w: WorldView, v: WorldView)
    requires
        all_numbered(w),
        v.next_barrier_wait >= w.next_barrier_wait,
        v.barriers.len() == w.barriers.len(),
        forall|j: int|
            0 <= j < v.barriers.len() ==> (#[trigger] v.barriers[j]).waiters
                == w.barriers[j].waiters || v.barriers[j].waiters.len() == 0,
    ensures
        all_numbered(v),
{
    assert forall|i: int| 0 <= i < v.barriers.len() implies {
        &&& numbered((#[trigger] v.barriers[i]).waiters)
        &&& forall|a: int|
            0 <= a < v.barriers[i].waiters.len() ==> (#[trigger] v.barriers[i].waiters[a]).wait
                < v.next_barrier_wait
    } by {
        assert(numbered(w.barriers[i].waiters));
    }
}

} // verus!

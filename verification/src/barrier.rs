//! Points at which contexts of one tree wait for one another.
use vstd::prelude::*;

use crate::context;
use crate::context::{failed, Ctx, Polled, WaitPhase, WaitPoll};
use crate::flt::Flt;
use crate::scheduler::WaitStateInner;
use crate::world::{World, WorldView};

verus! {

/// A context that waits for a barrier, and the number of its wait.
#[derive(Clone, Copy, Debug, PartialEq, Eq, Structural)]
pub struct BarrierWaiter {
    /// The context.
    pub ctx: u64,
    /// The wait.
    pub wait: u64,
}

/// A barrier.
#[derive(Debug)]
pub struct BarrierState {
    /// The root of the tree that it belongs to.
    pub root_id: u64,
    /// Its name in that tree.
    pub key: String,
    /// When it was last resolved.
    pub last_resolved_time: Flt,
    /// A cycle is under way.
    pub in_progress: bool,
    /// When the cycle started.
    pub start_time: Flt,
    /// Who waits for it, the first to come first.
    pub waiters: Vec<BarrierWaiter>,
}

/// What a barrier is.
#[verifier::ext_equal]
pub struct BarrierView {
    /// The root of the tree that it belongs to.
    pub root: u64,
    /// Its name in that tree.
    pub key: Seq<char>,
    /// When it was last resolved.
    pub resolved: Flt,
    /// A cycle is under way.
    pub in_progress: bool,
    /// When the cycle started.
    pub start: Flt,
    /// Who waits for it, the first to come first.
    pub waiters: Seq<BarrierWaiter>,
}

impl BarrierView {
    /// It has that name in that tree.
    pub open spec fn named(self, root: u64, key: Seq<char>) -> bool {
        self.root == root && self.key == key
    }
}

/// There is a barrier of that name.
pub open spec fn has(bs: Seq<BarrierView>, root: u64, key: Seq<char>) -> bool {
    exists|i: int| 0 <= i < bs.len() && (#[trigger] bs[i]).named(root, key)
}

/// The first barrier of that name stands there.
pub open spec fn stands_at(bs: Seq<BarrierView>, root: u64, key: Seq<char>, i: int) -> bool {
    &&& 0 <= i < bs.len()
    &&& bs[i].named(root, key)
    &&& forall|j: int| 0 <= j < i ==> !(#[trigger] bs[j]).named(root, key)
}

/// Where the barrier of that name stands.
pub open spec fn at(bs: Seq<BarrierView>, root: u64, key: Seq<char>) -> int {
    choose|i: int| stands_at(bs, root, key, i)
}

/// It stands in one place only.
pub proof fn lemma_at(bs: Seq<BarrierView>, root: u64, key: Seq<char>, i: int)
    requires
        stands_at(bs, root, key, i),
    ensures
        at(bs, root, key) == i,
        has(bs, root, key),
{
    let k = at(bs, root, key);
    assert(stands_at(bs, root, key, k));
    if k < i {
        assert(!bs[k].named(root, key));
    } else if i < k {
        assert(!bs[i].named(root, key));
    }
}

impl View for BarrierState {
    type V = BarrierView;

    open spec fn view(&self) -> BarrierView {
        BarrierView {
            root: self.root_id,
            key: self.key@,
            resolved: self.last_resolved_time,
            in_progress: self.in_progress,
            start: self.start_time,
            waiters: self.waiters@,
        }
    }
}

/// A barrier that was never resolved.
pub open spec fn unresolved(root: u64, key: Seq<char>) -> BarrierView {
    BarrierView {
        root,
        key,
        resolved: Flt::neg_infinity(),
        in_progress: false,
        start: Flt::neg_infinity(),
        waiters: Seq::empty(),
    }
}

impl WorldView {
    /// With a barrier of that name.
    pub open spec fn with_barrier(self, root: u64, key: Seq<char>) -> WorldView {
        if has(self.barriers, root, key) {
            self
        } else {
            WorldView { barriers: self.barriers.push(unresolved(root, key)), ..self }
        }
    }

    /// After one who waits for a barrier was let go at time `t`. Where
    /// `reach` says so, that moves up the latest time that any wait has
    /// reached. The wait of a cancelled context is cancelled.
    pub open spec fn with_waiter_freed(self, x: BarrierWaiter, t: Flt, reach: bool) -> WorldView {
        if !self.ctxs.contains_key(x.ctx) {
            self.with_barrier_ok(x.wait)
        } else if self.ctxs[x.ctx].canceled {
            self.with_barrier_cancelled(x.wait)
        } else {
            let time = self.ctxs[x.ctx].time.larger(t);
            let moved = self.with_time(x.ctx, time);
            if reach {
                moved.with_reached(time).with_barrier_ok(x.wait)
            } else {
                moved.with_barrier_ok(x.wait)
            }
        }
    }

    /// After these were let go, the first to come first.
    pub open spec fn with_waiters_freed(
        self,
        xs: Seq<BarrierWaiter>,
        t: Flt,
        reach: bool,
    ) -> WorldView
        decreases xs.len(),
    {
        if xs.len() == 0 {
            self
        } else {
            self.with_waiters_freed(xs.drop_last(), t, reach).with_waiter_freed(
                xs.last(),
                t,
                reach,
            )
        }
    }

    /// With this barrier in place of the one that stands there.
    pub open spec fn with_barrier_at(self, i: int, b: BarrierView) -> WorldView {
        WorldView { barriers: self.barriers.update(i, b), ..self }
    }

    /// After a cycle of a barrier was started. Those who still wait in a
    /// cycle that is under way are let go at the time of the last resolution.
    pub open spec fn barrier_started(self, ctx: u64, key: Seq<char>) -> WorldView {
        let root = self.root_of(ctx);
        let w = self.with_barrier(root, key);
        let i = at(w.barriers, root, key);
        let b = w.barriers[i];
        if b.in_progress {
            let freed = w.with_barrier_at(
                i,
                BarrierView { waiters: Seq::empty(), ..b },
            ).with_waiters_freed(b.waiters, b.resolved, false);
            freed.with_barrier_at(
                i,
                BarrierView { start: freed.ctxs[ctx].time, ..freed.barriers[i] },
            )
        } else {
            w.with_barrier_at(
                i,
                BarrierView { in_progress: true, start: self.ctxs[ctx].time, ..b },
            )
        }
    }

    /// After the cycle of a barrier was resolved: those who wait are let go
    /// at the time of the context that resolves it.
    pub open spec fn barrier_resolved(self, ctx: u64, key: Seq<char>) -> WorldView {
        let root = self.root_of(ctx);
        if has(self.barriers, root, key) {
            let i = at(self.barriers, root, key);
            let b = self.barriers[i];
            let t = self.ctxs[ctx].time;
            self.with_barrier_at(
                i,
                BarrierView { resolved: t, in_progress: false, waiters: Seq::empty(), ..b },
            ).with_waiters_freed(b.waiters, t, true)
        } else {
            self
        }
    }

    /// A barrier was resolved at the time of the context or later.
    pub open spec fn barrier_passed(self, ctx: u64, key: Seq<char>) -> bool {
        let root = self.root_of(ctx);
        let w = self.with_barrier(root, key);
        self.ctxs[ctx].time.at_most(w.barriers[at(w.barriers, root, key)].resolved)
    }

    /// After a context came to a barrier. Where the barrier was resolved at
    /// its time or later, it moves on to that time.
    pub open spec fn barrier_reached(self, ctx: u64, key: Seq<char>) -> WorldView {
        let root = self.root_of(ctx);
        let w = self.with_barrier(root, key);
        if self.barrier_passed(ctx, key) {
            let t = self.ctxs[ctx].time.larger(
                w.barriers[at(w.barriers, root, key)].resolved,
            );
            w.with_time(ctx, t).with_reached(t)
        } else {
            w
        }
    }

    /// How a wait for a barrier stands.
    pub open spec fn barrier_state_of(self, p: WaitPhase) -> WaitStateInner {
        match p {
            WaitPhase::Fresh => WaitStateInner::fresh(),
            WaitPhase::Registered { id } => if self.barrier_waits.contains_key(id) {
                self.barrier_waits[id]
            } else {
                WaitStateInner::fresh()
            },
            WaitPhase::Done { .. } => WaitStateInner { done: true, cancelled: false, waker: None },
            WaitPhase::Cancelled => WaitStateInner { done: false, cancelled: true, waker: None },
        }
    }

    /// The barrier of that name was resolved at the time of the context or
    /// later.
    pub open spec fn barrier_open(self, ctx: u64, root: u64, key: Seq<char>) -> bool {
        has(self.barriers, root, key) && self.ctxs[ctx].time.at_most(
            self.barriers[at(self.barriers, root, key)].resolved,
        )
    }

    /// After a poll of a wait for a barrier. Where the barrier was resolved
    /// since the wait was made, the first poll lets the context go.
    pub open spec fn barrier_polled(self, f: BarrierWaitView, waker: u64) -> Polled {
        let s = self.barrier_state_of(f.phase);
        let id = context::number_of(f.phase);
        let heard = if f.phase is Registered {
            WorldView { barrier_waits: self.barrier_waits.remove(id), ..self }
        } else {
            self
        };
        if f.already_resolved {
            (self, f.phase, Some(Ok(())))
        } else if s.cancelled {
            (heard, WaitPhase::Cancelled, Some(Err("cancelled"@)))
        } else if s.done {
            (heard, WaitPhase::Done { id }, Some(Ok(())))
        } else if f.phase is Registered {
            if self.barrier_waits.contains_key(id) {
                let armed = WaitStateInner { waker: Some(waker), ..s };
                (
                    WorldView { barrier_waits: self.barrier_waits.insert(id, armed), ..self },
                    f.phase,
                    None,
                )
            } else {
                (self, f.phase, None)
            }
        } else if self.ctxs[f.ctx.id].canceled {
            (
                self.with_woken(Some(waker)),
                WaitPhase::Cancelled,
                Some(Err("context cancelled"@)),
            )
        } else if self.barrier_open(f.ctx.id, f.root, f.key) {
            let t = self.ctxs[f.ctx.id].time.larger(
                self.barriers[at(self.barriers, f.root, f.key)].resolved,
            );
            (
                self.with_time(f.ctx.id, t).with_reached(t),
                WaitPhase::Done { id: 0 },
                Some(Ok(())),
            )
        } else {
            let wait = self.next_barrier_wait;
            let w = WorldView {
                next_barrier_wait: (wait + 1) as u64,
                barrier_waits: self.barrier_waits.insert(
                    wait,
                    WaitStateInner { done: false, cancelled: false, waker: Some(waker) },
                ),
                ..self
            };
            let p = WaitPhase::Registered { id: wait };
            if has(self.barriers, f.root, f.key) {
                let i = at(self.barriers, f.root, f.key);
                let b = self.barriers[i];
                let x = BarrierWaiter { ctx: f.ctx.id, wait };
                (w.with_barrier_at(i, BarrierView { waiters: b.waiters.push(x), ..b }), p, None)
            } else {
                (w, p, None)
            }
        }
    }
}

/// Finds the barrier of that name, and makes it where there is none.
fn get_or_create_barrier(w: &mut World, key: &String, root_id: u64) -> (r: usize)
    requires
        old(w).wf(),
    ensures
        final(w).wf(),
        final(w)@ == old(w)@.with_barrier(root_id, key@),
        r == at(final(w)@.barriers, root_id, key@),
        r < final(w)@.barriers.len(),
{
    match w.find_barrier(root_id, key) {
        Some(i) => i,
        None => {
            let i: usize = w.barrier_count();
            w.push_barrier(
                BarrierState {
                    root_id,
                    key: key.clone(),
                    last_resolved_time: Flt::neg_infinity(),
                    in_progress: false,
                    start_time: Flt::neg_infinity(),
                    waiters: Vec::new(),
                },
            );
            proof {
                let bs = w@.barriers;
                assert(w@ =~= old(w)@.with_barrier(root_id, key@));
                assert forall|j: int| 0 <= j < i implies !(#[trigger] bs[j]).named(
                    root_id,
                    key@,
                ) by {
                    assert(!old(w)@.barriers[j].named(root_id, key@));
                }
                assert(bs[i as int].named(root_id, key@));
                lemma_at(bs, root_id, key@, i as int);
            }
            i
        },
    }
}

/// Lets go of one who waits for a barrier.
fn free_waiter(w: &mut World, x: BarrierWaiter, t: Flt, reach: bool)
    requires
        old(w).wf(),
    ensures
        final(w).wf(),
        final(w)@ == old(w)@.with_waiter_freed(x, t, reach),
        final(w)@.ctxs.dom() == old(w)@.ctxs.dom(),
        final(w)@.barriers == old(w)@.barriers,
{
    if !w.has(x.ctx) {
        w.settle_barrier(x.wait);
    } else if w.ctx(x.ctx).canceled {
        w.settle_barrier_cancelled(x.wait);
    } else {
        let time: Flt = w.ctx(x.ctx).time.max(t);
        proof {
            w.lemma_wf();
        }
        w.set_time(x.ctx, time);
        if reach {
            w.reach(time);
        }
        w.settle_barrier(x.wait);
        assert(w@.ctxs.dom() =~= old(w)@.ctxs.dom());
    }
}

/// Lets go of those who wait for a barrier, the first to come first.
fn free_waiters(w: &mut World, xs: &Vec<BarrierWaiter>, t: Flt, reach: bool)
    requires
        old(w).wf(),
    ensures
        final(w).wf(),
        final(w)@ == old(w)@.with_waiters_freed(xs@, t, reach),
        final(w)@.ctxs.dom() == old(w)@.ctxs.dom(),
        final(w)@.barriers == old(w)@.barriers,
{
    let mut i: usize = 0;
    assert(xs@.take(0) =~= Seq::empty());
    while i < xs.len()
        invariant
            w.wf(),
            i <= xs.len(),
            w@ == old(w)@.with_waiters_freed(xs@.take(i as int), t, reach),
            w@.ctxs.dom() == old(w)@.ctxs.dom(),
            w@.barriers == old(w)@.barriers,
        decreases xs.len() - i,
    {
        assert(xs@.take(i + 1).drop_last() =~= xs@.take(i as int));
        free_waiter(w, xs[i], t, reach);
        i = i + 1;
    }
    assert(xs@.take(i as int) =~= xs@);
}

/// Starts a cycle of a barrier. Where one is under way, those who still wait
/// in it are let go first.
pub fn start_barrier(w: &mut World, key: &str, ctx: &Ctx)
    requires
        ctx.alive(old(w)),
    ensures
        ctx.alive(final(w)),
        final(w)@ == old(w)@.barrier_started(ctx.id, key@),
{
    let root: u64 = w.root_of(ctx.id);
    let name: String = key.to_owned();
    let i: usize = get_or_create_barrier(w, &name, root);
    let ghost made = w@;
    let (resolved, in_progress, start): (Flt, bool, Flt) = {
        let b: &BarrierState = w.barrier_at(i);
        (b.last_resolved_time, b.in_progress, b.start_time)
    };
    if in_progress {
        let xs: Vec<BarrierWaiter> = w.update_barrier(i, resolved, true, start, true);
        free_waiters(w, &xs, resolved, false);
        let ghost freed = w@;
        let now: Flt = ctx.time(w);
        let _ = w.update_barrier(i, resolved, true, now, false);
        assert(w@ =~= old(w)@.barrier_started(ctx.id, key@));
    } else {
        let now: Flt = ctx.time(w);
        let _ = w.update_barrier(i, resolved, true, now, false);
        assert(w@ =~= old(w)@.barrier_started(ctx.id, key@));
    }
}

/// Resolves the cycle of a barrier: those who wait are let go.
pub fn resolve_barrier(w: &mut World, key: &str, ctx: &Ctx)
    requires
        ctx.alive(old(w)),
    ensures
        ctx.alive(final(w)),
        final(w)@ == old(w)@.barrier_resolved(ctx.id, key@),
{
    let root: u64 = w.root_of(ctx.id);
    let name: String = key.to_owned();
    match w.find_barrier(root, &name) {
        Some(i) => {
            let t: Flt = ctx.time(w);
            let start: Flt = w.barrier_at(i).start_time;
            let xs: Vec<BarrierWaiter> = w.update_barrier(i, t, false, start, true);
            free_waiters(w, &xs, t, true);
        },
        None => {},
    }
}

/// A wait for a barrier.
#[derive(Debug)]
pub struct BarrierWaitFuture {
    /// Who waits.
    pub ctx: Ctx,
    /// The root of the tree that the barrier belongs to.
    pub root_id: u64,
    /// The name of the barrier.
    pub key: String,
    /// The barrier was resolved before the wait began.
    pub already_resolved: bool,
    /// How far it has come.
    pub phase: WaitPhase,
}

/// What a wait for a barrier is.
#[verifier::ext_equal]
pub struct BarrierWaitView {
    /// Who waits.
    pub ctx: Ctx,
    /// The root of the tree that the barrier belongs to.
    pub root: u64,
    /// The name of the barrier.
    pub key: Seq<char>,
    /// The barrier was resolved before the wait began.
    pub already_resolved: bool,
    /// How far it has come.
    pub phase: WaitPhase,
}

impl View for BarrierWaitFuture {
    type V = BarrierWaitView;

    open spec fn view(&self) -> BarrierWaitView {
        BarrierWaitView {
            ctx: self.ctx,
            root: self.root_id,
            key: self.key@,
            already_resolved: self.already_resolved,
            phase: self.phase,
        }
    }
}

/// A wait until a barrier is resolved. Where that happened at the time of the
/// context or later, the context moves on to that time, and the wait is over
/// at once.
pub fn await_barrier(w: &mut World, key: &str, ctx: &Ctx) -> (r: BarrierWaitFuture)
    requires
        ctx.alive(old(w)),
    ensures
        ctx.alive(final(w)),
        final(w)@ == old(w)@.barrier_reached(ctx.id, key@),
        r@ == (BarrierWaitView {
            ctx: *ctx,
            root: old(w)@.root_of(ctx.id),
            key: key@,
            already_resolved: old(w)@.barrier_passed(ctx.id, key@),
            phase: WaitPhase::Fresh,
        }),
{
    let root_id: u64 = w.root_of(ctx.id);
    let name: String = key.to_owned();
    let i: usize = get_or_create_barrier(w, &name, root_id);
    let resolved: Flt = w.barrier_at(i).last_resolved_time;
    let time: Flt = ctx.time(w);
    let already_resolved: bool = time.le(resolved);
    if already_resolved {
        let t: Flt = time.max(resolved);
        ctx.set_time(w, t);
        ctx.update_most_recent_desc_time(w, t);
    }
    BarrierWaitFuture {
        ctx: *ctx,
        root_id,
        key: name,
        already_resolved,
        phase: WaitPhase::Fresh,
    }
}

impl BarrierWaitFuture {
    /// Polls it for `waker`.
    pub fn poll(&mut self, w: &mut World, waker: u64) -> (r: WaitPoll)
        requires
            old(self).ctx.alive(old(w)),
            old(w)@.next_barrier_wait < u64::MAX,
        ensures
            final(self).ctx.alive(final(w)),
            final(w)@ == old(w)@.barrier_polled(old(self)@, waker).0,
            final(self)@ == (BarrierWaitView {
                phase: old(w)@.barrier_polled(old(self)@, waker).1,
                ..old(self)@
            }),
            r@ == old(w)@.barrier_polled(old(self)@, waker).2,
    {
        if self.already_resolved {
            return WaitPoll::Ready(Ok(()));
        }
        match self.phase {
            WaitPhase::Cancelled => failed("cancelled"),
            WaitPhase::Done { .. } => WaitPoll::Ready(Ok(())),
            WaitPhase::Registered { id } => {
                let mut s: WaitStateInner = w.barrier_wait_state(id);
                if s.is_cancelled() {
                    w.forget_barrier_wait(id);
                    self.phase = WaitPhase::Cancelled;
                    failed("cancelled")
                } else if s.is_done() {
                    w.forget_barrier_wait(id);
                    self.phase = WaitPhase::Done { id };
                    WaitPoll::Ready(Ok(()))
                } else {
                    if w.has_barrier_wait(id) {
                        s.set_waker(waker);
                        w.set_barrier_wait(id, s);
                    }
                    WaitPoll::Pending
                }
            },
            WaitPhase::Fresh => {
                if self.ctx.is_canceled(w) {
                    w.wake(waker);
                    self.phase = WaitPhase::Cancelled;
                    return failed("context cancelled");
                }
                let found: Option<usize> = w.find_barrier(self.root_id, &self.key);
                match found {
                    Some(i) => {
                        let resolved: Flt = w.barrier_at(i).last_resolved_time;
                        let time: Flt = self.ctx.time(w);
                        if time.le(resolved) {
                            let t: Flt = time.max(resolved);
                            self.ctx.set_time(w, t);
                            self.ctx.update_most_recent_desc_time(w, t);
                            self.phase = WaitPhase::Done { id: 0 };
                            return WaitPoll::Ready(Ok(()));
                        }
                    },
                    None => {},
                }
                let wait: u64 = w.new_barrier_wait(waker);
                match found {
                    Some(i) => {
                        w.join_barrier(i, BarrierWaiter { ctx: self.ctx.id, wait });
                    },
                    None => {},
                }
                self.phase = WaitPhase::Registered { id: wait };
                WaitPoll::Pending
            },
        }
    }
}

/// Forgets all barriers.
pub fn clear_all_barriers(w: &mut World)
    requires
        old(w).wf(),
    ensures
        final(w).wf(),
        final(w)@ == (WorldView { barriers: Seq::empty(), ..old(w)@ }),
{
    w.drop_barriers();
}

/// When the barrier of that name in the tree of a context was last resolved;
/// nothing where there is no such barrier.
pub fn last_resolved(w: &World, key: &str, ctx: &Ctx) -> (r: Option<Flt>)
    requires
        ctx.alive(w),
    ensures
        r == ({
            let root = w@.root_of(ctx.id);
            if has(w@.barriers, root, key@) {
                Some(w@.barriers[at(w@.barriers, root, key@)].resolved)
            } else {
                None
            }
        }),
{
    let name: String = key.to_owned();
    match w.find_barrier(w.root_of(ctx.id), &name) {
        Some(i) => Some(w.barrier_at(i).last_resolved_time),
        None => None,
    }
}

} // verus!

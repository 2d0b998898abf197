//! Contexts: logical time, waits, children and cancellation.
use vstd::prelude::*;
use vstd::string::*;

use crate::flt::Flt;
use crate::rng;
use crate::rng::derive_seed;
use crate::scheduler::{
    BeatWaitMeta, FrameWaitMeta, SchedView, TimeWaitMeta, WaitStateInner, WaiterKind,
};
use crate::tempo;
use crate::world;
use crate::world::{remove_waiter, CompletionState, CtxInner, CtxView, World, WorldView};

verus! {

broadcast use vstd::std_specs::hash::group_hash_axioms;

/// Why a wait ended early.
#[derive(Debug)]
pub struct WaitError {
    /// What happened.
    pub message: String,
}

impl Clone for WaitError {
    fn clone(&self) -> (r: Self)
        ensures
            r.message@ == self.message@,
    {
        WaitError { message: self.message.clone() }
    }
}

impl WaitError {
    /// The error as text.
    pub fn text(&self) -> (r: String)
        ensures
            r@ == self.message@,
    {
        self.message.clone()
    }
}

/// What a poll of a wait gives.
#[derive(Debug)]
pub enum WaitPoll {
    /// It goes on.
    Pending,
    /// It is over.
    Ready(Result<(), WaitError>),
}

impl View for WaitPoll {
    type V = Option<Result<(), Seq<char>>>;

    open spec fn view(&self) -> Option<Result<(), Seq<char>>> {
        match *self {
            WaitPoll::Pending => None,
            WaitPoll::Ready(Ok(_)) => Some(Ok(())),
            WaitPoll::Ready(Err(e)) => Some(Err(e.message@)),
        }
    }
}

/// A wait that ended early for this reason.
pub(crate) fn failed(message: &str) -> (r: WaitPoll)
    ensures
        r@ == Some(Err::<(), Seq<char>>(message@)),
{
    WaitPoll::Ready(Err(WaitError { message: message.to_owned() }))
}

/// Whether a child keeps its parent's tempo.
#[derive(Clone, Copy, Debug, PartialEq, Eq, Structural)]
pub enum TempoMode {
    /// Parent and child share one tempo.
    Shared,
    /// The child gets a copy.
    Cloned,
}

/// Whether a child keeps its parent's generator.
#[derive(Clone, Copy, Debug, PartialEq, Eq, Structural)]
pub enum RngMode {
    /// The child gets one of its own, with a seed of its own.
    Forked,
    /// Parent and child draw from one generator.
    Shared,
}

/// How a child relates to its parent.
#[derive(Clone, Copy, Debug, PartialEq, Eq, Structural)]
pub struct BranchOptions {
    /// Whether it keeps its parent's tempo.
    pub tempo: TempoMode,
    /// Whether it keeps its parent's generator.
    pub rng: RngMode,
}

impl Default for TempoMode {
    fn default() -> (r: Self)
        ensures
            r == TempoMode::Shared,
    {
        TempoMode::Shared
    }
}

impl Default for RngMode {
    fn default() -> (r: Self)
        ensures
            r == RngMode::Forked,
    {
        RngMode::Forked
    }
}

impl Default for BranchOptions {
    fn default() -> (r: Self)
        ensures
            r == (BranchOptions { tempo: TempoMode::Shared, rng: RngMode::Forked }),
    {
        BranchOptions { tempo: TempoMode::Shared, rng: RngMode::Forked }
    }
}

/// The children that are left when one of them has finished; those that are
/// gone leave with it.
pub open spec fn retained(children: Seq<u64>, ctxs: Map<u64, CtxView>, gone: u64) -> Seq<u64>
    decreases children.len(),
{
    if children.len() == 0 {
        children
    } else if ctxs.contains_key(children.last()) && children.last() != gone {
        retained(children.drop_last(), ctxs, gone).push(children.last())
    } else {
        retained(children.drop_last(), ctxs, gone)
    }
}

impl WorldView {
    /// After a new root was added.
    pub open spec fn with_root(self, bpm: Flt, seed: Seq<char>) -> WorldView {
        let c = CtxView {
            id: self.next_ctx,
            debug_name: Seq::empty(),
            time: Flt::zero(),
            start_time: Flt::zero(),
            canceled: false,
            waiters: Seq::empty(),
            children: Seq::empty(),
            parent: None,
            root: Some(self.next_ctx),
            tempo: self.tempos.next,
            rng: self.next_rng,
            seed,
            forks: 0,
            completion: None,
            handlers: Seq::empty(),
        };
        WorldView {
            tempos: self.tempos.created(bpm),
            rngs: self.rngs.insert(self.next_rng, seeded(seed)),
            next_rng: (self.next_rng + 1) as u64,
            ctxs: self.ctxs.insert(c.id, c),
            next_ctx: (self.next_ctx + 1) as u64,
            ..self
        }
    }

    /// After a child was added that starts at `t`.
    pub open spec fn with_child(
        self,
        parent: u64,
        t: Flt,
        opts: BranchOptions,
        completion: Option<CompletionState>,
    ) -> WorldView {
        let p = self.ctxs[parent];
        let forked = opts.rng is Forked;
        let seed = if forked {
            rng::child_seed(p.seed, p.forks as nat)
        } else {
            p.seed
        };
        let c = CtxView {
            id: self.next_ctx,
            debug_name: Seq::empty(),
            time: t,
            start_time: t,
            canceled: false,
            waiters: Seq::empty(),
            children: Seq::empty(),
            parent: Some(parent),
            root: p.root,
            tempo: if opts.tempo is Cloned {
                self.tempos.next
            } else {
                p.tempo
            },
            rng: if forked {
                self.next_rng
            } else {
                p.rng
            },
            seed,
            forks: 0,
            completion,
            handlers: Seq::empty(),
        };
        let grown = CtxView {
            children: p.children.push(self.next_ctx),
            forks: if forked {
                (p.forks + 1) as u64
            } else {
                p.forks
            },
            ..p
        };
        WorldView {
            tempos: if opts.tempo is Cloned {
                self.tempos.copied(p.tempo)
            } else {
                self.tempos
            },
            rngs: if forked {
                self.rngs.insert(self.next_rng, seeded(seed))
            } else {
                self.rngs
            },
            next_rng: if forked {
                (self.next_rng + 1) as u64
            } else {
                self.next_rng
            },
            ctxs: self.ctxs.insert(parent, grown).insert(c.id, c),
            next_ctx: (self.next_ctx + 1) as u64,
            ..self
        }
    }

    /// The numbers for one more child have not run out.
    pub open spec fn has_room(self, parent: u64) -> bool {
        &&& self.next_ctx < u64::MAX
        &&& self.next_rng < u64::MAX
        &&& self.tempos.next < u64::MAX
        &&& self.ctxs[parent].forks < u64::MAX
    }

    /// The numbers for whatever a context does next have not run out: for a
    /// task, a child, a wait, a cancel handler and a change of its tempo.
    pub open spec fn has_numbers(self, id: u64) -> bool {
        &&& self.has_room(id)
        &&& self.tasks.next < u64::MAX
        &&& self.sched.seq < u64::MAX
        &&& self.next_barrier_wait < u64::MAX
        &&& self.next_handler < u64::MAX
        &&& self.tempos.maps[self.ctxs[id].tempo].version < u64::MAX
    }

    /// After a child has finished: its parent, while it is there, drops it.
    pub open spec fn with_child_finished(self, parent: u64, child: u64) -> WorldView {
        if self.ctxs.contains_key(parent) {
            let p = self.ctxs[parent];
            self.with_ctx(CtxView { children: retained(p.children, self.ctxs, child), ..p })
        } else {
            self
        }
    }

    /// After a child that its parent waits for has finished.
    pub open spec fn with_waited_child_finished(self, parent: u64, child: u64) -> WorldView {
        let c = self.ctxs[child];
        let done = CompletionState { done: true, final_time: c.time, waker: None };
        match c.completion {
            Some(s) => self.with_ctx(
                CtxView { completion: Some(done), ..c },
            ).with_woken(s.waker).with_child_finished(parent, child),
            None => self.with_child_finished(parent, child),
        }
    }

    /// After a waiter of a cancelled context was cancelled.
    pub open spec fn with_waiter_cancelled(self, id: u64, kind: WaiterKind) -> WorldView {
        let w = WorldView { sched: self.sched.without(self.tempos.maps, id, kind), ..self };
        if self.sched.waiting(id, kind) {
            w.with_wait_cancelled(id)
        } else {
            w
        }
    }

    /// After these waiters were cancelled, one after the other.
    pub open spec fn with_waiters_cancelled(self, ws: Seq<(u64, WaiterKind)>) -> WorldView
        decreases ws.len(),
    {
        if ws.len() == 0 {
            self
        } else {
            self.with_waiters_cancelled(ws.drop_last()).with_waiter_cancelled(
                ws.last().0,
                ws.last().1,
            )
        }
    }

    /// After a context was marked as cancelled: the host is to run its
    /// handlers, the oldest first.
    pub open spec fn with_mark(self, id: u64) -> WorldView {
        let c = self.ctxs[id];
        WorldView { fired: self.fired + c.handlers, ..self }.with_ctx(
            CtxView { canceled: true, waiters: Seq::empty(), handlers: Seq::empty(), ..c },
        )
    }

    /// After a context was cancelled: first its own handlers and waits, then
    /// its children, the oldest first. A context that is gone, or cancelled already, stays
    /// as it is.
    pub open spec fn cancelled(self, id: u64) -> WorldView
        decreases u64::MAX - id, self.ctxs[id].children.len() + 1,
    {
        if !self.ctxs.contains_key(id) || self.ctxs[id].canceled {
            self
        } else {
            let c = self.ctxs[id];
            self.with_mark(id).with_waiters_cancelled(c.waiters).with_children_cancelled(
                id,
                c.children,
                c.children.len(),
            )
        }
    }

    /// After the first `n` of these children were cancelled. A child is
    /// younger than its parent.
    pub open spec fn with_children_cancelled(
        self,
        id: u64,
        children: Seq<u64>,
        n: nat,
    ) -> WorldView
        decreases u64::MAX - id, n,
    {
        if n == 0 {
            self
        } else {
            let w = self.with_children_cancelled(id, children, (n - 1) as nat);
            let k = children[n - 1];
            if id < k {
                w.cancelled(k)
            } else {
                w
            }
        }
    }

    /// After the tempo of a context was set.
    pub open spec fn with_bpm(self, id: u64, bpm: Flt) -> WorldView {
        let k = self.ctxs[id].tempo;
        let segs = tempo::with_bpm(
            self.tempos.maps[k].segs,
            bpm,
            self.sched.most_recent_desc_time,
        );
        self.with_tempo(k, segs)
    }

    /// After a ramp of the tempo of a context.
    pub open spec fn with_ramp(self, id: u64, bpm: Flt, dur: Flt) -> WorldView {
        let k = self.ctxs[id].tempo;
        let segs = tempo::with_ramp(
            self.tempos.maps[k].segs,
            bpm,
            dur,
            self.sched.most_recent_desc_time,
        );
        self.with_tempo(k, segs)
    }

    /// After a draw from the generator of a context, and what was drawn.
    pub open spec fn drawn(self, id: u64) -> (WorldView, Flt) {
        let g = self.ctxs[id].rng;
        let state = rng::advanced(self.rngs[g]);
        (WorldView { rngs: self.rngs.insert(g, state), ..self }, rng::unit(rng::mixed(state)))
    }

    /// The time from which a context's next wait counts: its own, or the
    /// latest that any wait has reached.
    pub open spec fn base(self, id: u64) -> Flt {
        self.sched.most_recent_desc_time.larger(self.ctxs[id].time)
    }
}

/// The number itself where it is positive and finite, else 0.
pub open spec fn forward(x: Flt) -> Flt {
    if x.finite() && Flt::zero().less(x) {
        x
    } else {
        Flt::zero()
    }
}

/// The number itself where it is positive and finite, else 0.
pub fn clamp_forward(x: Flt) -> (r: Flt)
    ensures
        r == forward(x),
{
    if x.is_finite() && Flt::zero().lt(x) {
        x
    } else {
        Flt::zero()
    }
}

/// How far a wait has come.
#[derive(Clone, Copy, Debug, PartialEq, Eq, Structural)]
pub enum WaitPhase {
    /// Not polled yet.
    Fresh,
    /// Registered under this number.
    Registered {
        /// The number of the waiter.
        id: u64,
    },
    /// It came due, and its context has heard of it.
    Done {
        /// The number of the waiter.
        id: u64,
    },
    /// It was cancelled, and its context has heard of it.
    Cancelled,
}

/// What a poll changes: the shared state, how far the wait has come, and
/// what the poll gives.
pub type Polled = (WorldView, WaitPhase, Option<Result<(), Seq<char>>>);

impl WorldView {
    /// How a wait stands.
    pub open spec fn state_of(self, p: WaitPhase) -> WaitStateInner {
        match p {
            WaitPhase::Fresh => WaitStateInner::fresh(),
            WaitPhase::Registered { id } => if self.waits.contains_key(id) {
                self.waits[id]
            } else {
                WaitStateInner::fresh()
            },
            WaitPhase::Done { .. } => WaitStateInner { done: true, cancelled: false, waker: None },
            WaitPhase::Cancelled => WaitStateInner { done: false, cancelled: true, waker: None },
        }
    }

    /// After the context of a wait heard how it ended.
    pub open spec fn forgotten(self, p: WaitPhase) -> WorldView {
        match p {
            WaitPhase::Registered { id } => WorldView { waits: self.waits.remove(id), ..self },
            _ => self,
        }
    }

    /// After a wait was registered.
    pub open spec fn registered(self, ctx: u64, kind: WaiterKind, waker: u64) -> WorldView {
        let id = self.sched.seq;
        let c = self.ctxs[ctx];
        WorldView {
            sched: SchedView { seq: (id + 1) as u64, ..self.sched },
            waits: self.waits.insert(
                id,
                WaitStateInner { done: false, cancelled: false, waker: Some(waker) },
            ),
            ..self
        }.with_ctx(CtxView { waiters: c.waiters.push((id, kind)), ..c })
    }

    /// After a registered wait was told which task to wake.
    pub open spec fn rearmed(self, id: u64, waker: u64) -> WorldView {
        if self.waits.contains_key(id) {
            let s = WaitStateInner { waker: Some(waker), ..self.waits[id] };
            WorldView { waits: self.waits.insert(id, s), ..self }
        } else {
            self
        }
    }

    /// After a wait ended well at time `t`.
    pub open spec fn wait_over(self, ctx: u64, id: u64, t: Flt) -> WorldView {
        let c = self.ctxs[ctx];
        self.with_ctx(
            CtxView { time: t, waiters: world::without_waiter(c.waiters, id), ..c },
        ).with_reached(t)
    }

    /// After a poll of a wait that, if it came due, ends at time `t`. The
    /// queue of what is waited for is not part of it.
    pub open spec fn polled(
        self,
        ctx: u64,
        p: WaitPhase,
        kind: WaiterKind,
        waker: u64,
        t: Flt,
    ) -> Polled {
        let s = self.state_of(p);
        if s.cancelled {
            (self.forgotten(p), WaitPhase::Cancelled, Some(Err("cancelled"@)))
        } else if s.done {
            let id = number_of(p);
            (
                self.forgotten(p).wait_over(ctx, id, t),
                WaitPhase::Done { id },
                Some(Ok(())),
            )
        } else if p is Registered {
            (self.rearmed(number_of(p), waker), p, None)
        } else if self.ctxs[ctx].canceled {
            (
                self.with_woken(Some(waker)),
                WaitPhase::Cancelled,
                Some(Err("context cancelled"@)),
            )
        } else {
            (
                self.registered(ctx, kind, waker),
                WaitPhase::Registered { id: self.sched.seq },
                None,
            )
        }
    }

    /// After a poll of a wait for a time.
    pub open spec fn time_polled(self, f: TimeWaitFuture, waker: u64) -> Polled {
        let t = self.ctxs[f.ctx.id].time.larger(f.target_time);
        let (w, p, r) = self.polled(f.ctx.id, f.phase, WaiterKind::Time, waker, t);
        if f.phase is Fresh && p is Registered {
            let id = number_of(p);
            let meta = TimeWaitMeta {
                seq: id,
                target_time: f.target_time.larger(Flt::zero()),
                waiter_id: id,
            };
            (WorldView { sched: w.sched.with_time_wait(meta), ..w }, p, r)
        } else {
            (w, p, r)
        }
    }

    /// After a poll of a wait for a beat.
    pub open spec fn beat_polled(self, f: BeatWaitFuture, waker: u64) -> Polled {
        let due = tempo::time_at(self.tempos.maps[f.tempo_id].segs, f.target_beat);
        let t = self.ctxs[f.ctx.id].time.larger(due);
        let kind = WaiterKind::Beat { tempo_id: f.tempo_id };
        let (w, p, r) = self.polled(f.ctx.id, f.phase, kind, waker, t);
        if f.phase is Fresh && p is Registered {
            let id = number_of(p);
            let meta = BeatWaitMeta {
                seq: id,
                target_beat: f.target_beat,
                waiter_id: id,
                tempo_id: f.tempo_id,
            };
            (WorldView { sched: w.sched.with_beat_wait(w.tempos.maps, meta), ..w }, p, r)
        } else {
            (w, p, r)
        }
    }

    /// After a poll of a wait for the next frame.
    pub open spec fn frame_polled(self, f: FrameWaitFuture, waker: u64, wall: Flt) -> Polled {
        let t = self.ctxs[f.ctx.id].time.larger(self.sched.now(wall)).larger(
            self.sched.most_recent_desc_time,
        );
        let (w, p, r) = self.polled(f.ctx.id, f.phase, WaiterKind::Frame, waker, t);
        if f.phase is Fresh && p is Registered {
            let id = number_of(p);
            let meta = FrameWaitMeta { seq: id, waiter_id: id };
            (WorldView { sched: w.sched.with_frame_wait(meta), ..w }, p, r)
        } else {
            (w, p, r)
        }
    }
}

/// The number of a waiter; 0 where it has none.
pub open spec fn number_of(p: WaitPhase) -> u64 {
    match p {
        WaitPhase::Registered { id } => id,
        WaitPhase::Done { id } => id,
        _ => 0,
    }
}

/// A wait for a time.
#[derive(Clone, Copy, Debug, PartialEq, Eq, Structural)]
pub struct TimeWaitFuture {
    /// Who waits.
    pub ctx: Ctx,
    /// When it is due.
    pub target_time: Flt,
    /// How far it has come.
    pub phase: WaitPhase,
}

/// A wait for a beat.
#[derive(Clone, Copy, Debug, PartialEq, Eq, Structural)]
pub struct BeatWaitFuture {
    /// Who waits.
    pub ctx: Ctx,
    /// The tempo that counts the beats.
    pub tempo_id: u64,
    /// At which beat it is due.
    pub target_beat: Flt,
    /// How far it has come.
    pub phase: WaitPhase,
}

/// A wait for the next frame.
#[derive(Clone, Copy, Debug, PartialEq, Eq, Structural)]
pub struct FrameWaitFuture {
    /// Who waits.
    pub ctx: Ctx,
    /// How far it has come.
    pub phase: WaitPhase,
}

/// A wait for a number of beats.
#[derive(Clone, Copy, Debug, PartialEq, Eq, Structural)]
pub enum WaitFuture {
    /// For no beats: until the present time.
    Time(TimeWaitFuture),
    /// For some beats.
    Beat(BeatWaitFuture),
}

impl TimeWaitFuture {
    /// A wait that was not polled yet.
    pub fn new(ctx: Ctx, target_time: Flt) -> (r: Self)
        ensures
            r == (TimeWaitFuture { ctx, target_time, phase: WaitPhase::Fresh }),
    {
        TimeWaitFuture { ctx, target_time, phase: WaitPhase::Fresh }
    }

    /// Polls it for `waker`.
    pub fn poll(&mut self, w: &mut World, waker: u64) -> (r: WaitPoll)
        requires
            old(self).ctx.alive(old(w)),
            old(w)@.sched.seq < u64::MAX,
        ensures
            final(self).ctx.alive(final(w)),
            final(w)@ == old(w)@.time_polled(*old(self), waker).0,
            *final(self) == (TimeWaitFuture {
                phase: old(w)@.time_polled(*old(self), waker).1,
                ..*old(self)
            }),
            r@ == old(w)@.time_polled(*old(self), waker).2,
    {
        let ctx: Ctx = self.ctx;
        let t: Flt = ctx.time(w).max(self.target_time);
        let fresh: bool = self.phase == WaitPhase::Fresh;
        let (phase, r) = w.poll_wait(ctx.id, self.phase, WaiterKind::Time, waker, t);
        self.phase = phase;
        if fresh {
            match phase {
                WaitPhase::Registered { id } => {
                    let target_time: Flt = self.target_time.max(Flt::zero());
                    w.add_time_wait(TimeWaitMeta { seq: id, target_time, waiter_id: id });
                },
                _ => {},
            }
        }
        r
    }
}

impl BeatWaitFuture {
    /// A wait that was not polled yet.
    pub fn new(ctx: Ctx, tempo_id: u64, target_beat: Flt) -> (r: Self)
        ensures
            r == (BeatWaitFuture { ctx, tempo_id, target_beat, phase: WaitPhase::Fresh }),
    {
        BeatWaitFuture { ctx, tempo_id, target_beat, phase: WaitPhase::Fresh }
    }

    /// Polls it for `waker`.
    pub fn poll(&mut self, w: &mut World, waker: u64) -> (r: WaitPoll)
        requires
            old(self).ctx.alive(old(w)),
            old(w)@.tempos.maps.contains_key(old(self).tempo_id),
            old(w)@.sched.seq < u64::MAX,
        ensures
            final(self).ctx.alive(final(w)),
            final(w)@ == old(w)@.beat_polled(*old(self), waker).0,
            *final(self) == (BeatWaitFuture {
                phase: old(w)@.beat_polled(*old(self), waker).1,
                ..*old(self)
            }),
            r@ == old(w)@.beat_polled(*old(self), waker).2,
    {
        let ctx: Ctx = self.ctx;
        let tempo_id: u64 = self.tempo_id;
        let due: Flt = w.tempo(tempo_id).time_at_beats(self.target_beat);
        let t: Flt = ctx.time(w).max(due);
        let fresh: bool = self.phase == WaitPhase::Fresh;
        let kind: WaiterKind = WaiterKind::Beat { tempo_id };
        let (phase, r) = w.poll_wait(ctx.id, self.phase, kind, waker, t);
        self.phase = phase;
        if fresh {
            match phase {
                WaitPhase::Registered { id } => {
                    w.add_beat_wait(
                        BeatWaitMeta {
                            seq: id,
                            target_beat: self.target_beat,
                            waiter_id: id,
                            tempo_id,
                        },
                    );
                },
                _ => {},
            }
        }
        r
    }
}

impl FrameWaitFuture {
    /// A wait that was not polled yet.
    pub fn new(ctx: Ctx) -> (r: Self)
        ensures
            r == (FrameWaitFuture { ctx, phase: WaitPhase::Fresh }),
    {
        FrameWaitFuture { ctx, phase: WaitPhase::Fresh }
    }

    /// Polls it for `waker`, `wall` seconds after the wall-clock anchor.
    pub fn poll(&mut self, w: &mut World, waker: u64, wall: Flt) -> (r: WaitPoll)
        requires
            old(self).ctx.alive(old(w)),
            old(w)@.sched.seq < u64::MAX,
        ensures
            final(self).ctx.alive(final(w)),
            final(w)@ == old(w)@.frame_polled(*old(self), waker, wall).0,
            *final(self) == (FrameWaitFuture {
                phase: old(w)@.frame_polled(*old(self), waker, wall).1,
                ..*old(self)
            }),
            r@ == old(w)@.frame_polled(*old(self), waker, wall).2,
    {
        let ctx: Ctx = self.ctx;
        let now: Flt = w.now(wall);
        let t: Flt = ctx.time(w).max(now).max(w.most_recent());
        let fresh: bool = self.phase == WaitPhase::Fresh;
        let (phase, r) = w.poll_wait(ctx.id, self.phase, WaiterKind::Frame, waker, t);
        self.phase = phase;
        if fresh {
            match phase {
                WaitPhase::Registered { id } => {
                    w.add_frame_wait(FrameWaitMeta { seq: id, waiter_id: id });
                },
                _ => {},
            }
        }
        r
    }
}

impl WaitFuture {
    /// Polls it for `waker`.
    pub fn poll(&mut self, w: &mut World, waker: u64) -> (r: WaitPoll)
        requires
            old(self).ready_to_poll(old(w)),
        ensures
            final(self).ready_to_poll(final(w)) || final(w)@.sched.seq == u64::MAX,
            match *old(self) {
                WaitFuture::Time(f) => {
                    let p = old(w)@.time_polled(f, waker);
                    &&& final(w)@ == p.0
                    &&& *final(self) == WaitFuture::Time(TimeWaitFuture { phase: p.1, ..f })
                    &&& r@ == p.2
                },
                WaitFuture::Beat(f) => {
                    let p = old(w)@.beat_polled(f, waker);
                    &&& final(w)@ == p.0
                    &&& *final(self) == WaitFuture::Beat(BeatWaitFuture { phase: p.1, ..f })
                    &&& r@ == p.2
                },
            },
    {
        match *self {
            WaitFuture::Time(mut f) => {
                let r: WaitPoll = f.poll(w, waker);
                *self = WaitFuture::Time(f);
                r
            },
            WaitFuture::Beat(mut f) => {
                let r: WaitPoll = f.poll(w, waker);
                *self = WaitFuture::Beat(f);
                r
            },
        }
    }

    /// Its context and its tempo are there, and numbers have not run out.
    pub open spec fn ready_to_poll(self, w: &World) -> bool {
        &&& w@.sched.seq < u64::MAX
        &&& match self {
            WaitFuture::Time(f) => f.ctx.alive(w),
            WaitFuture::Beat(f) => f.ctx.alive(w) && w@.tempos.maps.contains_key(f.tempo_id),
        }
    }
}

impl World {
    /// Polls a wait that, if it came due, ends at time `t`, and registers it
    /// with its context the first time.
    fn poll_wait(
        &mut self,
        ctx: u64,
        phase: WaitPhase,
        kind: WaiterKind,
        waker: u64,
        t: Flt,
    ) -> (r: (WaitPhase, WaitPoll))
        requires
            old(self).wf(),
            old(self)@.ctxs.contains_key(ctx),
            old(self)@.sched.seq < u64::MAX,
            world::kind_known(old(self)@.tempos, kind),
        ensures
            final(self).wf(),
            final(self)@ == old(self)@.polled(ctx, phase, kind, waker, t).0,
            r.0 == old(self)@.polled(ctx, phase, kind, waker, t).1,
            r.1@ == old(self)@.polled(ctx, phase, kind, waker, t).2,
    {
        match phase {
            WaitPhase::Cancelled => (WaitPhase::Cancelled, failed("cancelled")),
            WaitPhase::Done { id } => {
                self.end_wait(ctx, id, t);
                (phase, WaitPoll::Ready(Ok(())))
            },
            WaitPhase::Registered { id } => {
                let s: WaitStateInner = self.wait_state(id);
                if s.is_cancelled() {
                    self.forget_wait(id);
                    (WaitPhase::Cancelled, failed("cancelled"))
                } else if s.is_done() {
                    self.forget_wait(id);
                    self.end_wait(ctx, id, t);
                    (WaitPhase::Done { id }, WaitPoll::Ready(Ok(())))
                } else {
                    self.rearm_wait(id, waker);
                    (phase, WaitPoll::Pending)
                }
            },
            WaitPhase::Fresh => {
                if self.ctx(ctx).canceled {
                    self.wake(waker);
                    (WaitPhase::Cancelled, failed("context cancelled"))
                } else {
                    let id: u64 = self.register_wait(ctx, kind, waker);
                    (WaitPhase::Registered { id }, WaitPoll::Pending)
                }
            },
        }
    }

    /// Ends a wait well: its context moves to `t` and drops the waiter.
    fn end_wait(&mut self, ctx: u64, id: u64, t: Flt)
        requires
            old(self).wf(),
            old(self)@.ctxs.contains_key(ctx),
        ensures
            final(self).wf(),
            final(self)@ == old(self)@.wait_over(ctx, id, t),
    {
        proof {
            self.lemma_wf();
        }
        let mut c: CtxInner = self.take_ctx(ctx);
        let ghost was = c@;
        c.time = t;
        c.pending_waiters = remove_waiter(&c.pending_waiters, id);
        proof {
            world::lemma_without_waiter(was.waiters, id);
            assert forall|i: int| 0 <= i < c@.waiters.len() implies world::kind_known(
                self@.tempos,
                (#[trigger] c@.waiters[i]).1,
            ) by {
                let j = choose|j: int|
                    0 <= j < was.waiters.len() && was.waiters[j] == c@.waiters[i];
                assert(world::kind_known(self@.tempos, was.waiters[j].1));
            }
        }
        self.put_ctx(c);
        self.reach(t);
        assert(self@ =~= old(self)@.wait_over(ctx, id, t));
    }

    /// Registers a wait with its context.
    fn register_wait(&mut self, ctx: u64, kind: WaiterKind, waker: u64) -> (r: u64)
        requires
            old(self).wf(),
            old(self)@.ctxs.contains_key(ctx),
            old(self)@.sched.seq < u64::MAX,
            world::kind_known(old(self)@.tempos, kind),
        ensures
            final(self).wf(),
            final(self)@ == old(self)@.registered(ctx, kind, waker),
            r == old(self)@.sched.seq,
    {
        proof {
            self.lemma_wf();
        }
        let id: u64 = self.new_wait(waker);
        let ghost mid = self@;
        let mut c: CtxInner = self.take_ctx(ctx);
        c.pending_waiters.push((id, kind));
        proof {
            world::lemma_ctx_wf_same(old(self)@.ctxs[ctx], old(self)@, self@);
        }
        self.put_ctx(c);
        assert(self@ =~= old(self)@.registered(ctx, kind, waker));
        id
    }
}

/// The state of the generator for a seed.
pub open spec fn seeded(seed: Seq<char>) -> u64 {
    rng::fnv(vstd::utf8::encode_utf8(seed))
}

/// A context, by its number.
#[derive(Clone, Copy, Debug, PartialEq, Eq, Structural)]
pub struct Ctx {
    /// Its number.
    pub id: u64,
}

impl Ctx {
    /// The context is there.
    pub open spec fn alive(self, w: &World) -> bool {
        w.wf() && w@.ctxs.contains_key(self.id)
    }

    /// Adds a root with a tempo of its own.
    pub fn new_root(w: &mut World, bpm: Flt, seed: &str) -> (r: Ctx)
        requires
            old(w).wf(),
            old(w)@.next_ctx < u64::MAX,
            old(w)@.next_rng < u64::MAX,
            old(w)@.tempos.next < u64::MAX,
        ensures
            final(w).wf(),
            final(w)@ == old(w)@.with_root(bpm, seed@),
            r.id == old(w)@.next_ctx,
            r.alive(final(w)),
    {
        let id: u64 = w.next_ctx_id();
        let tempo: u64 = w.add_tempo(bpm);
        let rng: u64 = w.add_rng(seed);
        w.put_ctx(
            CtxInner {
                id,
                debug_name: String::new(),
                time: Flt::zero(),
                start_time: Flt::zero(),
                canceled: false,
                pending_waiters: Vec::new(),
                children: Vec::new(),
                parent: None,
                root: Some(id),
                tempo,
                rng,
                rng_seed: seed.to_owned(),
                rng_fork_counter: 0,
                completion: None,
                cancel_handlers: Vec::new(),
            },
        );
        assert(w@ =~= old(w)@.with_root(bpm, seed@));
        Ctx { id }
    }

    /// Its number.
    pub fn id(&self) -> (r: u64)
        ensures
            r == self.id,
    {
        self.id
    }

    /// Its logical time.
    pub fn time(&self, w: &World) -> (r: Flt)
        requires
            self.alive(w),
        ensures
            r == w@.ctxs[self.id].time,
    {
        w.ctx(self.id).time
    }

    /// Moves its logical time.
    pub fn set_time(&self, w: &mut World, t: Flt)
        requires
            self.alive(old(w)),
        ensures
            self.alive(final(w)),
            final(w)@ == old(w)@.with_time(self.id, t),
    {
        proof {
            w.lemma_wf();
        }
        w.set_time(self.id, t);
    }

    /// The time since it started.
    pub fn prog_time(&self, w: &World) -> (r: Flt)
        requires
            self.alive(w),
        ensures
            r == w@.ctxs[self.id].time.minus(w@.ctxs[self.id].start_time),
    {
        let c: &CtxInner = w.ctx(self.id);
        c.time.difference(c.start_time)
    }

    /// The beats that have passed at its time.
    pub fn beats(&self, w: &World) -> (r: Flt)
        requires
            self.alive(w),
        ensures
            r == tempo::beats_at(
                w@.tempos.maps[w@.ctxs[self.id].tempo].segs,
                w@.ctxs[self.id].time,
            ),
    {
        proof {
            w.lemma_wf();
        }
        let c: &CtxInner = w.ctx(self.id);
        w.tempo(c.tempo).beats_at_time(c.time)
    }

    /// The beats since it started.
    pub fn prog_beats(&self, w: &World) -> (r: Flt)
        requires
            self.alive(w),
        ensures
            r == ({
                let c = w@.ctxs[self.id];
                let segs = w@.tempos.maps[c.tempo].segs;
                tempo::beats_at(segs, c.time).minus(tempo::beats_at(segs, c.start_time))
            }),
    {
        proof {
            w.lemma_wf();
        }
        let c: &CtxInner = w.ctx(self.id);
        let now: Flt = w.tempo(c.tempo).beats_at_time(c.time);
        now.difference(w.tempo(c.tempo).beats_at_time(c.start_time))
    }

    /// The tempo at its time.
    pub fn bpm(&self, w: &World) -> (r: Flt)
        requires
            self.alive(w),
        ensures
            r == tempo::bpm_at(
                w@.tempos.maps[w@.ctxs[self.id].tempo].segs,
                w@.ctxs[self.id].time,
            ),
    {
        proof {
            w.lemma_wf();
        }
        let c: &CtxInner = w.ctx(self.id);
        w.tempo(c.tempo).bpm_at_time(c.time)
    }

    /// Sets its tempo, for everyone who shares it, from the latest time that
    /// any wait has reached.
    pub fn set_bpm(&self, w: &mut World, bpm: Flt)
        requires
            self.alive(old(w)),
            old(w)@.tempos.maps[old(w)@.ctxs[self.id].tempo].version < u64::MAX,
        ensures
            self.alive(final(w)),
            final(w)@ == old(w)@.with_bpm(self.id, bpm),
    {
        proof {
            w.lemma_wf();
        }
        let tempo: u64 = w.ctx(self.id).tempo;
        w.set_bpm(tempo, bpm);
    }

    /// Moves its tempo, for everyone who shares it, to a target over
    /// `dur_sec` seconds from the latest time that any wait has reached.
    pub fn ramp_bpm_to(&self, w: &mut World, target_bpm: Flt, dur_sec: Flt)
        requires
            self.alive(old(w)),
            old(w)@.tempos.maps[old(w)@.ctxs[self.id].tempo].version < u64::MAX,
        ensures
            self.alive(final(w)),
            final(w)@ == old(w)@.with_ramp(self.id, target_bpm, dur_sec),
    {
        proof {
            w.lemma_wf();
        }
        let tempo: u64 = w.ctx(self.id).tempo;
        w.ramp_bpm(tempo, target_bpm, dur_sec);
    }

    /// Draws a number from 0 up to, but not including, 1.
    pub fn random(&self, w: &mut World) -> (r: Flt)
        requires
            self.alive(old(w)),
        ensures
            self.alive(final(w)),
            r == old(w)@.drawn(self.id).1,
            final(w)@ == old(w)@.drawn(self.id).0,
    {
        proof {
            w.lemma_wf();
        }
        let g: u64 = w.ctx(self.id).rng;
        w.draw(g)
    }

    /// It was cancelled.
    pub fn is_canceled(&self, w: &World) -> (r: bool)
        requires
            self.alive(w),
        ensures
            r == w@.ctxs[self.id].canceled,
    {
        w.ctx(self.id).canceled
    }

    /// Cancels it and all that descend from it.
    pub fn cancel(&self, w: &mut World)
        requires
            self.alive(old(w)),
        ensures
            self.alive(final(w)),
            final(w)@ == old(w)@.cancelled(self.id),
    {
        w.cancel(self.id);
    }

    /// Moves the latest time that any wait has reached up to `t`.
    pub fn update_most_recent_desc_time(&self, w: &mut World, t: Flt)
        requires
            self.alive(old(w)),
        ensures
            self.alive(final(w)),
            final(w)@ == old(w)@.with_reached(t),
    {
        w.reach(t);
    }
}

impl Ctx {
    /// A wait of so many seconds from the present; negative, infinite and NaN
    /// count as none.
    pub fn wait_sec(&self, w: &World, sec: Flt) -> (r: TimeWaitFuture)
        requires
            self.alive(w),
        ensures
            r == (TimeWaitFuture {
                ctx: *self,
                target_time: w@.base(self.id).plus(forward(sec)),
                phase: WaitPhase::Fresh,
            }),
    {
        let base: Flt = w.most_recent().max(self.time(w));
        TimeWaitFuture::new(*self, base.sum(clamp_forward(sec)))
    }

    /// A wait of so many beats from the present. No beats, a negative number,
    /// infinity and NaN make it a wait for the present time itself.
    pub fn wait(&self, w: &World, beats: Flt) -> (r: WaitFuture)
        requires
            self.alive(w),
        ensures
            r == w@.beat_wait(*self, beats),
            r is Beat ==> w@.tempos.maps.contains_key(r->Beat_0.tempo_id),
    {
        proof {
            w.lemma_wf();
        }
        let base: Flt = w.most_recent().max(self.time(w));
        let delta: Flt = if beats.is_finite() {
            beats
        } else {
            Flt::zero()
        };
        if delta.le(Flt::zero()) {
            return WaitFuture::Time(TimeWaitFuture::new(*self, base));
        }
        let tempo_id: u64 = w.ctx(self.id).tempo;
        let target: Flt = w.tempo(tempo_id).beats_at_time(base).sum(delta);
        WaitFuture::Beat(BeatWaitFuture::new(*self, tempo_id, target))
    }

    /// A wait for the next frame.
    pub fn wait_frame(&self) -> (r: FrameWaitFuture)
        ensures
            r == (FrameWaitFuture { ctx: *self, phase: WaitPhase::Fresh }),
    {
        FrameWaitFuture::new(*self)
    }

    /// Adds a child that starts at `initial_time`.
    fn create_child(
        &self,
        w: &mut World,
        initial_time: Flt,
        opts: BranchOptions,
        completion: Option<CompletionState>,
    ) -> (r: Ctx)
        requires
            self.alive(old(w)),
            old(w)@.has_room(self.id),
        ensures
            self.alive(final(w)),
            r.alive(final(w)),
            final(w)@ == old(w)@.with_child(self.id, initial_time, opts, completion),
            r.id == old(w)@.next_ctx,
    {
        proof {
            w.lemma_wf();
        }
        let id: u64 = w.next_ctx_id();
        let mut p: CtxInner = w.take_ctx(self.id);
        let ghost was = p@;
        let tempo: u64 = match opts.tempo {
            TempoMode::Shared => p.tempo,
            TempoMode::Cloned => w.copy_tempo(p.tempo),
        };
        let (rng, rng_seed): (u64, String) = match opts.rng {
            RngMode::Shared => (p.rng, p.rng_seed.clone()),
            RngMode::Forked => {
                let index: u64 = p.rng_fork_counter;
                p.rng_fork_counter = index + 1;
                let seed: String = derive_seed(p.rng_seed.as_str(), index);
                (w.add_rng(seed.as_str()), seed)
            },
        };
        p.children.push(id);
        let root: Option<u64> = p.root;
        proof {
            world::lemma_ctx_wf_same(was, old(w)@, w@);
        }
        w.put_ctx(p);
        w.put_ctx(
            CtxInner {
                id,
                debug_name: String::new(),
                time: initial_time,
                start_time: initial_time,
                canceled: false,
                pending_waiters: Vec::new(),
                children: Vec::new(),
                parent: Some(self.id),
                root,
                tempo,
                rng,
                rng_seed,
                rng_fork_counter: 0,
                completion,
                cancel_handlers: Vec::new(),
            },
        );
        assert(w@ =~= old(w)@.with_child(self.id, initial_time, opts, completion));
        Ctx { id }
    }

    /// Adds a child that starts at the latest time that any wait has reached
    /// and runs beside its parent. The host makes its future, and then a task
    /// for it; when that is over, it calls `finish_branch`.
    pub fn branch(&self, w: &mut World, opts: BranchOptions) -> (r: BranchHandle)
        requires
            self.alive(old(w)),
            old(w)@.has_room(self.id),
        ensures
            self.alive(final(w)),
            r.ctx.alive(final(w)),
            final(w)@ == old(w)@.with_child(
                self.id,
                old(w)@.sched.most_recent_desc_time,
                opts,
                None,
            ),
            r.ctx.id == old(w)@.next_ctx,
            r.future is None,
    {
        let t: Flt = w.most_recent();
        let ctx: Ctx = self.create_child(w, t, opts, None);
        BranchHandle { ctx, future: None }
    }

    /// Adds a child that starts at its parent's time and moves it to its own
    /// when it is over. The host makes its future, and then a task for it;
    /// when that is over, it calls `finish_branch_wait`.
    pub fn branch_wait(&self, w: &mut World, opts: BranchOptions) -> (r: SpawnedBranchWaitFuture)
        requires
            self.alive(old(w)),
            old(w)@.has_room(self.id),
        ensures
            r.parent == *self,
            self.alive(final(w)),
            r.child.alive(final(w)),
            final(w)@ == old(w)@.with_child(
                self.id,
                old(w)@.ctxs[self.id].time,
                opts,
                Some(unfinished()),
            ),
            r.child.id == old(w)@.next_ctx,
    {
        let t: Flt = self.time(w);
        let completion: CompletionState = CompletionState {
            done: false,
            final_time: Flt::zero(),
            waker: None,
        };
        let child: Ctx = self.create_child(w, t, opts, Some(completion));
        SpawnedBranchWaitFuture { parent: *self, child }
    }

    /// Notes that a child is over: its parent drops it.
    pub fn finish_branch(&self, w: &mut World, parent: Ctx)
        requires
            self.alive(old(w)),
        ensures
            self.alive(final(w)),
            final(w)@ == old(w)@.with_child_finished(parent.id, self.id),
    {
        proof {
            w.lemma_wf();
        }
        if w.has(parent.id) {
            let kept: Vec<u64> = w.retain_children(parent.id, self.id);
            let mut p: CtxInner = w.take_ctx(parent.id);
            let ghost was = p@;
            p.children = kept;
            proof {
                lemma_retained(was.children, old(w)@.ctxs, self.id);
                world::lemma_ctx_wf_same(was, old(w)@, w@);
                assert forall|i: int| 0 <= i < p@.children.len() implies p@.id
                    < #[trigger] p@.children[i] < w@.next_ctx by {
                    let j = choose|j: int|
                        0 <= j < was.children.len() && was.children[j] == p@.children[i];
                    assert(was.id < was.children[j]);
                }
            }
            w.put_ctx(p);
            assert(w@ =~= old(w)@.with_child_finished(parent.id, self.id));
        }
    }

    /// Notes that a child that its parent waits for is over: at which time,
    /// for the parent to hear; and its parent drops it.
    pub fn finish_branch_wait(&self, w: &mut World, parent: Ctx)
        requires
            self.alive(old(w)),
        ensures
            self.alive(final(w)),
            final(w)@ == old(w)@.with_waited_child_finished(parent.id, self.id),
    {
        proof {
            w.lemma_wf();
        }
        let mut c: CtxInner = w.take_ctx(self.id);
        let ghost was = c@;
        let waker: Option<u64> = match c.completion {
            Some(s) => {
                c.completion = Some(
                    CompletionState { done: true, final_time: c.time, waker: None },
                );
                s.waker
            },
            None => None,
        };
        proof {
            world::lemma_ctx_wf_same(was, old(w)@, w@);
            world::lemma_ctx_wf_kept(was, c@, w@);
        }
        w.put_ctx(c);
        proof {
            if was.completion is None {
                assert(w@ =~= old(w)@);
            } else {
                let done = CompletionState { done: true, final_time: was.time, waker: None };
                assert(w@ =~= old(w)@.with_ctx(CtxView { completion: Some(done), ..was }));
            }
        }
        w.wake_opt(waker);
        self.finish_branch(w, parent);
    }
}

/// A child that has not finished, with nobody to tell.
pub open spec fn unfinished() -> CompletionState {
    CompletionState { done: false, final_time: Flt::zero(), waker: None }
}

/// The children that are left were there before.
proof fn lemma_retained(children: Seq<u64>, ctxs: Map<u64, CtxView>, gone: u64)
    ensures
        forall|i: int|
            0 <= i < retained(children, ctxs, gone).len() ==> children.contains(
                #[trigger] retained(children, ctxs, gone)[i],
            ) && retained(children, ctxs, gone)[i] != gone,
    decreases children.len(),
{
    if children.len() > 0 {
        let init = children.drop_last();
        lemma_retained(init, ctxs, gone);
        let r = retained(children, ctxs, gone);
        assert forall|i: int| 0 <= i < r.len() implies children.contains(#[trigger] r[i]) && r[i]
            != gone by {
            if i < retained(init, ctxs, gone).len() {
                assert(r[i] == retained(init, ctxs, gone)[i]);
                let j = choose|j: int| 0 <= j < init.len() && init[j] == r[i];
                assert(children[j] == r[i]);
            } else {
                assert(children[children.len() - 1] == r[i]);
            }
        }
    }
}

impl World {
    /// The children of a context that are there, without one of them.
    fn retain_children(&self, id: u64, gone: u64) -> (r: Vec<u64>)
        requires
            self@.ctxs.contains_key(id),
        ensures
            r@ == retained(self@.ctxs[id].children, self@.ctxs, gone),
    {
        let children: &Vec<u64> = &self.ctx(id).children;
        let mut out: Vec<u64> = Vec::new();
        let mut i: usize = 0;
        assert(children@.take(0) =~= Seq::empty());
        while i < children.len()
            invariant
                i <= children.len(),
                out@ == retained(children@.take(i as int), self@.ctxs, gone),
            decreases children.len() - i,
        {
            assert(children@.take(i + 1).drop_last() =~= children@.take(i as int));
            let k: u64 = children[i];
            if self.has(k) && k != gone {
                out.push(k);
            }
            i = i + 1;
        }
        assert(children@.take(i as int) =~= children@);
        out
    }
}

impl WorldView {
    /// The wait of so many beats.
    pub open spec fn beat_wait(self, ctx: Ctx, beats: Flt) -> WaitFuture {
        let base = self.base(ctx.id);
        let delta = if beats.finite() {
            beats
        } else {
            Flt::zero()
        };
        if delta.at_most(Flt::zero()) {
            WaitFuture::Time(
                TimeWaitFuture { ctx, target_time: base, phase: WaitPhase::Fresh },
            )
        } else {
            let tempo_id = self.ctxs[ctx.id].tempo;
            let start = tempo::beats_at(self.tempos.maps[tempo_id].segs, base);
            WaitFuture::Beat(
                BeatWaitFuture {
                    ctx,
                    tempo_id,
                    target_beat: start.plus(delta),
                    phase: WaitPhase::Fresh,
                },
            )
        }
    }

    /// After a parent polled for the end of a child, and what it heard.
    pub open spec fn branch_polled(
        self,
        parent: u64,
        child: u64,
        waker: u64,
    ) -> (WorldView, Option<Result<(), Seq<char>>>) {
        let c = self.ctxs[child];
        if c.canceled {
            (self, Some(Err("context cancelled"@)))
        } else {
            match c.completion {
                Some(s) => if s.done {
                    let t = self.ctxs[parent].time.larger(s.final_time);
                    (self.with_time(parent, t), Some(Ok(())))
                } else {
                    let told = CompletionState { waker: Some(waker), ..s };
                    (self.with_ctx(CtxView { completion: Some(told), ..c }), None)
                },
                None => (self, None),
            }
        }
    }
}

/// A child that runs beside its parent.
#[derive(Clone, Copy, Debug, PartialEq, Eq, Structural)]
pub struct BranchHandle {
    /// The child.
    pub ctx: Ctx,
    /// The task of the child, where the caller is to start it.
    pub future: Option<crate::executor::Task>,
}

impl BranchHandle {
    /// Cancels the child and all that descend from it.
    pub fn cancel(&self, w: &mut World)
        requires
            self.ctx.alive(old(w)),
        ensures
            self.ctx.alive(final(w)),
            final(w)@ == old(w)@.cancelled(self.ctx.id),
    {
        self.ctx.cancel(w);
    }

    /// Hands out the task of the child, where the caller is to start it.
    pub fn take_future(&mut self) -> (r: Option<crate::executor::Task>)
        ensures
            r == old(self).future,
            *final(self) == (BranchHandle { future: None, ..*old(self) }),
    {
        self.future.take()
    }
}

/// A parent's wait for the end of a child.
#[derive(Clone, Copy, Debug, PartialEq, Eq, Structural)]
pub struct SpawnedBranchWaitFuture {
    /// Who waits.
    pub parent: Ctx,
    /// Whose end is waited for.
    pub child: Ctx,
}

impl SpawnedBranchWaitFuture {
    /// Polls it for `waker`.
    pub fn poll(&mut self, w: &mut World, waker: u64) -> (r: WaitPoll)
        requires
            old(self).parent.alive(old(w)),
            old(self).child.alive(old(w)),
        ensures
            *final(self) == *old(self),
            final(self).parent.alive(final(w)),
            final(self).child.alive(final(w)),
            final(w)@ == old(w)@.branch_polled(old(self).parent.id, old(self).child.id, waker).0,
            r@ == old(w)@.branch_polled(old(self).parent.id, old(self).child.id, waker).1,
    {
        proof {
            w.lemma_wf();
        }
        if self.child.is_canceled(w) {
            return failed("context cancelled");
        }
        match w.ctx(self.child.id).completion {
            Some(s) => {
                if s.done {
                    let t: Flt = self.parent.time(w).max(s.final_time);
                    self.parent.set_time(w, t);
                    WaitPoll::Ready(Ok(()))
                } else {
                    let mut c: CtxInner = w.take_ctx(self.child.id);
                    let ghost was = c@;
                    c.completion = Some(CompletionState { waker: Some(waker), ..s });
                    proof {
                        world::lemma_ctx_wf_same(was, old(w)@, w@);
                        world::lemma_ctx_wf_kept(was, c@, w@);
                    }
                    w.put_ctx(c);
                    assert(w@ =~= old(w)@.branch_polled(self.parent.id, self.child.id, waker).0);
                    WaitPoll::Pending
                }
            },
            None => WaitPoll::Pending,
        }
    }
}

/// The handlers without those of that number.
pub open spec fn without_handler(s: Seq<u64>, id: u64) -> Seq<u64>
    decreases s.len(),
{
    if s.len() == 0 {
        s
    } else if s.last() == id {
        without_handler(s.drop_last(), id)
    } else {
        without_handler(s.drop_last(), id).push(s.last())
    }
}

impl WorldView {
    /// After a cancel handler was added to a context. One that is cancelled
    /// already has it run at once.
    pub open spec fn with_handler(self, ctx: u64) -> WorldView {
        let id = self.next_handler;
        let c = self.ctxs[ctx];
        let w = WorldView { next_handler: (id + 1) as u64, ..self };
        if c.canceled {
            WorldView { fired: self.fired.push(id), ..w }
        } else {
            w.with_ctx(CtxView { handlers: c.handlers.push(id), ..c })
        }
    }

    /// After a cancel handler was taken from a context, while that is there.
    pub open spec fn with_handler_dropped(self, ctx: u64, id: u64) -> WorldView {
        if self.ctxs.contains_key(ctx) {
            let c = self.ctxs[ctx];
            self.with_ctx(CtxView { handlers: without_handler(c.handlers, id), ..c })
        } else {
            self
        }
    }
}

/// A cancel handler of a context, which can be taken back.
#[derive(Clone, Copy, Debug, PartialEq, Eq, Structural)]
pub struct CancelHandlerUnsubscribe {
    /// The context.
    pub ctx: Ctx,
    /// The number of the handler.
    pub handler: u64,
}

impl CancelHandlerUnsubscribe {
    /// Takes the handler back: it is not run on cancellation any more.
    pub fn unsubscribe(&self, w: &mut World)
        requires
            old(w).wf(),
        ensures
            final(w).wf(),
            final(w)@ == old(w)@.with_handler_dropped(self.ctx.id, self.handler),
    {
        if w.has(self.ctx.id) {
            proof {
                w.lemma_wf();
            }
            let mut c: CtxInner = w.take_ctx(self.ctx.id);
            let ghost was = c@;
            let mut out: Vec<u64> = Vec::new();
            let mut i: usize = 0;
            assert(was.handlers.take(0) =~= Seq::empty());
            while i < c.cancel_handlers.len()
                invariant
                    i <= c.cancel_handlers.len(),
                    c@ == was,
                    out@ == without_handler(was.handlers.take(i as int), self.handler),
                decreases c.cancel_handlers.len() - i,
            {
                assert(was.handlers.take(i + 1).drop_last() =~= was.handlers.take(i as int));
                if c.cancel_handlers[i] != self.handler {
                    out.push(c.cancel_handlers[i]);
                }
                i = i + 1;
            }
            assert(was.handlers.take(i as int) =~= was.handlers);
            c.cancel_handlers = out;
            proof {
                world::lemma_ctx_wf_same(was, old(w)@, w@);
                world::lemma_ctx_wf_kept(was, c@, w@);
            }
            w.put_ctx(c);
            assert(w@ =~= old(w)@.with_handler_dropped(self.ctx.id, self.handler));
        }
    }
}

impl Ctx {
    /// Adds a handler that the host runs when the context is cancelled, by
    /// itself or with an ancestor. One that is cancelled already has it run
    /// at once.
    pub fn handle_cancel(&self, w: &mut World) -> (r: CancelHandlerUnsubscribe)
        requires
            self.alive(old(w)),
            old(w)@.next_handler < u64::MAX,
        ensures
            self.alive(final(w)),
            final(w)@ == old(w)@.with_handler(self.id),
            r.ctx == *self,
            r.handler == old(w)@.next_handler,
    {
        proof {
            w.lemma_wf();
        }
        let id: u64 = w.next_handler_id();
        if self.is_canceled(w) {
            let mut now: Vec<u64> = Vec::new();
            now.push(id);
            w.fire(now);
            assert(w@ =~= old(w)@.with_handler(self.id));
        } else {
            let mut c: CtxInner = w.take_ctx(self.id);
            let ghost was = c@;
            c.cancel_handlers.push(id);
            proof {
                world::lemma_ctx_wf_same(was, old(w)@, w@);
                world::lemma_ctx_wf_kept(was, c@, w@);
            }
            w.put_ctx(c);
            assert(w@ =~= old(w)@.with_handler(self.id));
        }
        CancelHandlerUnsubscribe { ctx: *self, handler: id }
    }
}

impl BranchHandle {
    /// Adds a handler that the host runs when the child is cancelled, by
    /// itself or with an ancestor. One that is cancelled already has it run
    /// at once.
    pub fn handle_cancel(&self, w: &mut World) -> (r: CancelHandlerUnsubscribe)
        requires
            self.ctx.alive(old(w)),
            old(w)@.next_handler < u64::MAX,
        ensures
            self.ctx.alive(final(w)),
            final(w)@ == old(w)@.with_handler(self.ctx.id),
            r.ctx == self.ctx,
            r.handler == old(w)@.next_handler,
    {
        self.ctx.handle_cancel(w)
    }
}

} // verus!

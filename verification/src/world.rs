//! The state that contexts share: tasks, waits, tempos, generators, and the
//! contexts themselves, each under its number.
use std::collections::HashMap;
use vstd::prelude::*;

use crate::barrier;
use crate::barrier::{BarrierState, BarrierView, BarrierWaiter};
use crate::executor::{ExecView, Executor, Run, Task};
use crate::executor;
use crate::flt::Flt;
use crate::rng::DetRng;
use crate::scheduler::{
    BeatWaitMeta, FrameWaitMeta, SchedView, SchedulerMode, TimeScheduler, TimeWaitMeta, WaitState,
    WaitStateInner, WaiterKind,
};
use crate::tempo;
use crate::tempo::{TempoMap, TempoSegment, Tempos, TemposView};

verus! {

broadcast use vstd::std_specs::hash::group_hash_axioms;

/// Whether a child that its parent waits for has finished.
#[derive(Clone, Copy, Debug, PartialEq, Eq, Structural)]
pub struct CompletionState {
    /// It has finished.
    pub done: bool,
    /// The time at which it finished.
    pub final_time: Flt,
    /// The task to wake when it finishes.
    pub waker: Option<u64>,
}

/// A context.
#[derive(Debug)]
pub struct CtxInner {
    /// Its number.
    pub id: u64,
    /// A name to show; the library leaves it empty.
    pub debug_name: String,
    /// Its logical time.
    pub time: Flt,
    /// The time at which it started.
    pub start_time: Flt,
    /// It was cancelled.
    pub canceled: bool,
    /// What it waits for, the oldest wait first.
    pub pending_waiters: Vec<(u64, WaiterKind)>,
    /// Its children, the oldest first.
    pub children: Vec<u64>,
    /// Its parent.
    pub parent: Option<u64>,
    /// The root of its tree.
    pub root: Option<u64>,
    /// Its tempo.
    pub tempo: u64,
    /// Its generator.
    pub rng: u64,
    /// The seed that its children's seeds derive from.
    pub rng_seed: String,
    /// How many of its children have a generator of their own.
    pub rng_fork_counter: u64,
    /// Whether it has finished, where its parent waits for that.
    pub completion: Option<CompletionState>,
    /// The handlers to run when it is cancelled, the oldest first.
    pub cancel_handlers: Vec<u64>,
}

/// What a context is.
#[verifier::ext_equal]
pub struct CtxView {
    /// Its number.
    pub id: u64,
    /// A name to show.
    pub debug_name: Seq<char>,
    /// Its logical time.
    pub time: Flt,
    /// The time at which it started.
    pub start_time: Flt,
    /// It was cancelled.
    pub canceled: bool,
    /// What it waits for, the oldest wait first.
    pub waiters: Seq<(u64, WaiterKind)>,
    /// Its children, the oldest first.
    pub children: Seq<u64>,
    /// Its parent.
    pub parent: Option<u64>,
    /// The root of its tree.
    pub root: Option<u64>,
    /// Its tempo.
    pub tempo: u64,
    /// Its generator.
    pub rng: u64,
    /// The seed that its children's seeds derive from.
    pub seed: Seq<char>,
    /// How many of its children have a generator of their own.
    pub forks: u64,
    /// Whether it has finished, where its parent waits for that.
    pub completion: Option<CompletionState>,
    /// The handlers to run when it is cancelled, the oldest first.
    pub handlers: Seq<u64>,
}

impl View for CtxInner {
    type V = CtxView;

    open spec fn view(&self) -> CtxView {
        CtxView {
            id: self.id,
            debug_name: self.debug_name@,
            time: self.time,
            start_time: self.start_time,
            canceled: self.canceled,
            waiters: self.pending_waiters@,
            children: self.children@,
            parent: self.parent,
            root: self.root,
            tempo: self.tempo,
            rng: self.rng,
            seed: self.rng_seed@,
            forks: self.rng_fork_counter,
            completion: self.completion,
            handlers: self.cancel_handlers@,
        }
    }
}

/// What the shared state is.
#[verifier::ext_equal]
pub struct WorldView {
    /// The tasks.
    pub tasks: ExecView,
    /// The waits.
    pub sched: SchedView,
    /// The tempos.
    pub tempos: TemposView,
    /// The generators, each by its state.
    pub rngs: Map<u64, u64>,
    /// The contexts.
    pub ctxs: Map<u64, CtxView>,
    /// How each registered wait stands.
    pub waits: Map<u64, WaitStateInner>,
    /// The barriers.
    pub barriers: Seq<BarrierView>,
    /// How each wait for a barrier stands.
    pub barrier_waits: Map<u64, WaitStateInner>,
    /// The number of the next context.
    pub next_ctx: u64,
    /// The number of the next generator.
    pub next_rng: u64,
    /// The number of the next wait for a barrier.
    pub next_barrier_wait: u64,
    /// The cancel handlers that the host is to run, the first one first.
    pub fired: Seq<u64>,
    /// The number of the next cancel handler.
    pub next_handler: u64,
}

impl CtxView {
    /// Its tempo and its generator exist, its waits speak of tempos that
    /// exist, and its children are younger than itself.
    pub open spec fn wf(self, w: WorldView) -> bool {
        &&& self.id < w.next_ctx
        &&& w.tempos.maps.contains_key(self.tempo)
        &&& w.rngs.contains_key(self.rng)
        &&& forall|i: int|
            0 <= i < self.children.len() ==> self.id < #[trigger] self.children[i] < w.next_ctx
        &&& forall|i: int|
            0 <= i < self.waiters.len() ==> kind_known(w.tempos, (#[trigger] self.waiters[i]).1)
    }
}

/// What is waited for exists.
pub open spec fn kind_known(tempos: TemposView, kind: WaiterKind) -> bool {
    match kind {
        WaiterKind::Beat { tempo_id } => tempos.maps.contains_key(tempo_id),
        _ => true,
    }
}

impl WorldView {
    /// Nothing but a clock at time 0.
    pub open spec fn initial(mode: SchedulerMode) -> WorldView {
        WorldView {
            tasks: ExecView { ready: Seq::empty(), live: Set::empty(), next: 0 },
            sched: SchedView::initial(mode),
            tempos: TemposView { maps: Map::empty(), next: 0 },
            rngs: Map::empty(),
            ctxs: Map::empty(),
            waits: Map::empty(),
            barriers: Seq::empty(),
            barrier_waits: Map::empty(),
            next_ctx: 0,
            next_rng: 0,
            next_barrier_wait: 0,
            fired: Seq::empty(),
            next_handler: 0,
        }
    }

    /// Every context is well-formed and stands under its own number, and
    /// every tempo whose beats are waited for exists.
    pub open spec fn wf(self) -> bool {
        &&& forall|id: u64| #[trigger]
            self.ctxs.contains_key(id) ==> self.ctxs[id].id == id && self.ctxs[id].wf(self)
        &&& forall|id: u64| #[trigger] self.rngs.contains_key(id) ==> id < self.next_rng
        &&& forall|id: u64| #[trigger] self.tempos.maps.contains_key(id) ==> id < self.tempos.next
        &&& self.sched.covered(self.tempos.maps)
    }

    /// With this context in place of the one with its number.
    pub open spec fn with_ctx(self, c: CtxView) -> WorldView {
        WorldView { ctxs: self.ctxs.insert(c.id, c), ..self }
    }

    /// With another time of a context.
    pub open spec fn with_time(self, id: u64, t: Flt) -> WorldView {
        self.with_ctx(CtxView { time: t, ..self.ctxs[id] })
    }

    /// With the latest time that any wait has reached moved up to `t`.
    pub open spec fn with_reached(self, t: Flt) -> WorldView {
        WorldView {
            sched: SchedView {
                most_recent_desc_time: self.sched.most_recent_desc_time.larger(t),
                ..self.sched
            },
            ..self
        }
    }

    /// After a task was woken, where there is one.
    pub open spec fn with_woken(self, task: Option<u64>) -> WorldView {
        WorldView { tasks: self.tasks.woken_opt(task), ..self }
    }

    /// After a registered wait came due.
    pub open spec fn with_wait_ok(self, id: u64) -> WorldView {
        if self.waits.contains_key(id) {
            let s = self.waits[id];
            WorldView { waits: self.waits.insert(id, s.after_ok()), ..self }.with_woken(s.wakes())
        } else {
            self
        }
    }

    /// After a registered wait was cancelled.
    pub open spec fn with_wait_cancelled(self, id: u64) -> WorldView {
        if self.waits.contains_key(id) {
            let s = self.waits[id];
            WorldView { waits: self.waits.insert(id, s.after_cancel()), ..self }.with_woken(
                s.wakes(),
            )
        } else {
            self
        }
    }

    /// After a wait for a barrier was over.
    pub open spec fn with_barrier_ok(self, id: u64) -> WorldView {
        if self.barrier_waits.contains_key(id) {
            let s = self.barrier_waits[id];
            WorldView {
                barrier_waits: self.barrier_waits.insert(id, s.after_ok()),
                ..self
            }.with_woken(s.wakes())
        } else {
            self
        }
    }

    /// After a wait for a barrier was cancelled.
    pub open spec fn with_barrier_cancelled(self, id: u64) -> WorldView {
        if self.barrier_waits.contains_key(id) {
            let s = self.barrier_waits[id];
            WorldView {
                barrier_waits: self.barrier_waits.insert(id, s.after_cancel()),
                ..self
            }.with_woken(s.wakes())
        } else {
            self
        }
    }

    /// After these waits came due, one after the other.
    pub open spec fn with_all_ok(self, ids: Seq<u64>) -> WorldView
        decreases ids.len(),
    {
        if ids.len() == 0 {
            self
        } else {
            self.with_all_ok(ids.drop_last()).with_wait_ok(ids.last())
        }
    }

    /// After the waits that are due first came due.
    pub open spec fn with_slice(self) -> WorldView {
        let (sched, ids) = self.sched.sliced(self.tempos.maps);
        WorldView { sched, ..self }.with_all_ok(ids)
    }

    /// After all waits for the next frame came due.
    pub open spec fn with_frame(self) -> WorldView {
        let ids = crate::pq::due(self.sched.frames, Flt::zero());
        WorldView {
            sched: SchedView { frames: Map::empty(), ..self.sched },
            ..self
        }.with_all_ok(ids)
    }

    /// After the segments of a tempo were replaced: its waits are due anew.
    pub open spec fn with_tempo(self, id: u64, segs: Seq<TempoSegment>) -> WorldView {
        let tempos = self.tempos.changed(id, segs);
        WorldView { tempos, sched: self.sched.refreshed(tempos.maps, id), ..self }
    }

    /// The number of the root of a context's tree, while that context is
    /// there; else its own.
    pub open spec fn root_of(self, id: u64) -> u64 {
        match self.ctxs[id].root {
            Some(r) => if self.ctxs.contains_key(r) {
                r
            } else {
                id
            },
            None => id,
        }
    }
}

/// The state that contexts share.
pub struct World {
    /// The tasks.
    pub executor: Executor,
    /// The waits.
    pub scheduler: TimeScheduler,
    pub(crate) tempos: Tempos,
    pub(crate) rngs: HashMap<u64, DetRng>,
    pub(crate) ctxs: HashMap<u64, CtxInner>,
    pub(crate) waits: HashMap<u64, WaitStateInner>,
    pub(crate) barriers: Vec<BarrierState>,
    pub(crate) barrier_waits: HashMap<u64, WaitStateInner>,
    pub(crate) next_ctx: u64,
    pub(crate) next_rng: u64,
    pub(crate) next_barrier_wait: u64,
    pub(crate) fired: Vec<u64>,
    pub(crate) next_handler: u64,
}

impl View for World {
    type V = WorldView;

    closed spec fn view(&self) -> WorldView {
        WorldView {
            tasks: self.executor@,
            sched: self.scheduler@,
            tempos: self.tempos@,
            rngs: self.rngs@.map_values(|r: DetRng| r@),
            ctxs: self.ctxs@.map_values(|c: CtxInner| c@),
            waits: self.waits@,
            barriers: self.barriers@.map_values(|b: BarrierState| b@),
            barrier_waits: self.barrier_waits@,
            next_ctx: self.next_ctx,
            next_rng: self.next_rng,
            next_barrier_wait: self.next_barrier_wait,
            fired: self.fired@,
            next_handler: self.next_handler,
        }
    }
}

/// The waits without those of that number.
pub open spec fn without_waiter(s: Seq<(u64, WaiterKind)>, id: u64) -> Seq<(u64, WaiterKind)>
    decreases s.len(),
{
    if s.len() == 0 {
        s
    } else if s.last().0 == id {
        without_waiter(s.drop_last(), id)
    } else {
        without_waiter(s.drop_last(), id).push(s.last())
    }
}

/// What is left are some of the waits that were there.
pub proof fn lemma_without_waiter(s: Seq<(u64, WaiterKind)>, id: u64)
    ensures
        forall|i: int|
            0 <= i < without_waiter(s, id).len() ==> s.contains(
                #[trigger] without_waiter(s, id)[i],
            ) && without_waiter(s, id)[i].0 != id,
    decreases s.len(),
{
    if s.len() > 0 {
        let init = s.drop_last();
        lemma_without_waiter(init, id);
        let r = without_waiter(s, id);
        assert forall|i: int| 0 <= i < r.len() implies s.contains(#[trigger] r[i]) && r[i].0
            != id by {
            if i < without_waiter(init, id).len() {
                assert(r[i] == without_waiter(init, id)[i]);
                let j = choose|j: int| 0 <= j < init.len() && init[j] == r[i];
                assert(s[j] == r[i]);
            } else {
                assert(s[s.len() - 1] == r[i]);
            }
        }
    }
}

impl World {
    /// The parts are well-formed, and so is the whole.
    pub closed spec fn wf(&self) -> bool {
        &&& self.executor.wf()
        &&& self.scheduler.wf()
        &&& self.tempos.wf()
        &&& self@.wf()
    }

    /// What well-formedness says of the contexts.
    pub proof fn lemma_wf(&self)
        requires
            self.wf(),
        ensures
            self@.wf(),
    {
    }

    /// Nothing but a clock at time 0.
    pub fn new(mode: SchedulerMode) -> (r: Self)
        ensures
            r.wf(),
            r@ == WorldView::initial(mode),
    {
        let r: World = World {
            executor: Executor::new(),
            scheduler: TimeScheduler::new(mode),
            tempos: Tempos::new(),
            rngs: HashMap::new(),
            ctxs: HashMap::new(),
            waits: HashMap::new(),
            barriers: Vec::new(),
            barrier_waits: HashMap::new(),
            next_ctx: 0,
            next_rng: 0,
            next_barrier_wait: 0,
            fired: Vec::new(),
            next_handler: 0,
        };
        assert(r@ =~= WorldView::initial(mode));
        r
    }

    /// Queues a new task.
    pub fn spawn(&mut self) -> (r: Task)
        requires
            old(self).wf(),
            old(self)@.tasks.next < u64::MAX,
        ensures
            final(self).wf(),
            final(self)@ == (WorldView { tasks: old(self)@.tasks.spawned(), ..old(self)@ }),
            r.id == old(self)@.tasks.next,
    {
        let r: Task = self.executor.spawn();
        proof {
            lemma_same_ctxs(old(self)@, self@);
        }
        r
    }

    /// Wakes a task.
    pub fn wake(&mut self, task: u64)
        requires
            old(self).wf(),
        ensures
            final(self).wf(),
            final(self)@ == old(self)@.with_woken(Some(task)),
    {
        self.executor.enqueue(task);
        proof {
            lemma_same_ctxs(old(self)@, self@);
        }
    }

    /// Wakes a task, where there is one.
    pub(crate) fn wake_opt(&mut self, task: Option<u64>)
        requires
            old(self).wf(),
        ensures
            final(self).wf(),
            final(self)@ == old(self)@.with_woken(task),
    {
        match task {
            Some(t) => self.wake(t),
            None => {},
        }
    }

    /// Goes on with a run of the tasks.
    pub fn run_until_stalled(&mut self, run: Run, completed: bool) -> (r: Run)
        requires
            old(self).wf(),
            executor::polls_of(run) < usize::MAX,
        ensures
            final(self).wf(),
            final(self)@ == (WorldView {
                tasks: executor::run_next(old(self)@.tasks, run, completed).0,
                ..old(self)@
            }),
            r == executor::run_next(old(self)@.tasks, run, completed).1,
    {
        let r: Run = self.executor.run_until_stalled(run, completed);
        proof {
            lemma_same_ctxs(old(self)@, self@);
        }
        r
    }

    /// The logical time, `wall` seconds after the wall-clock anchor.
    pub fn now(&self, wall: Flt) -> (r: Flt)
        ensures
            r == self@.sched.now(wall),
    {
        self.scheduler.now(wall)
    }

    /// The latest time that any wait has reached.
    pub fn most_recent(&self) -> (r: Flt)
        ensures
            r == self@.sched.most_recent_desc_time,
    {
        self.scheduler.most_recent()
    }

    /// The waits.
    pub fn scheduler(&self) -> (r: &TimeScheduler)
        ensures
            r@ == self@.sched,
    {
        &self.scheduler
    }

    /// How fast logical time runs.
    pub fn rate(&self) -> (r: Flt)
        ensures
            r == self@.sched.rate,
    {
        self.scheduler.rate()
    }

    /// The logical time when stepping.
    pub fn offline_time(&self) -> (r: Flt)
        ensures
            r == self@.sched.offline_now,
    {
        self.scheduler.offline_time()
    }

    /// Some wait has not come due.
    pub fn has_pending_waits(&self) -> (r: bool)
        requires
            self.wf(),
        ensures
            r == self@.sched.pending(),
    {
        self.scheduler.has_pending_waits()
    }

    /// The task has not completed.
    pub fn is_live(&self, task: u64) -> (r: bool)
        ensures
            r == self@.tasks.live.contains(task),
    {
        self.executor.is_live(task)
    }

    /// Some task is queued.
    pub fn has_ready_tasks(&self) -> (r: bool)
        ensures
            r == (self@.tasks.ready.len() > 0),
    {
        self.executor.has_ready_tasks()
    }

    /// When the next wait is due, where that is a finite time.
    pub fn peek_next_event_time(&mut self) -> (r: Option<Flt>)
        requires
            old(self).wf(),
        ensures
            final(self).wf(),
            final(self)@ == old(self)@,
            r == old(self)@.sched.next_event(),
    {
        let r: Option<Flt> = self.scheduler.peek_next_event_time();
        proof {
            lemma_same_ctxs(old(self)@, self@);
        }
        r
    }

    /// Moves the logical time when stepping.
    pub fn set_offline_now(&mut self, t: Flt)
        requires
            old(self).wf(),
        ensures
            final(self).wf(),
            final(self)@ == old(self)@.at_time(t),
    {
        self.scheduler.set_offline_now(t);
        proof {
            lemma_same_ctxs(old(self)@, self@);
        }
    }

    /// Sets how fast logical time runs, `wall` seconds after the wall-clock
    /// anchor.
    pub fn set_rate(&mut self, rate: Flt, wall: Flt)
        requires
            old(self).wf(),
        ensures
            final(self).wf(),
            final(self)@ == (WorldView {
                sched: old(self)@.sched.with_rate(rate, wall),
                ..old(self)@
            }),
    {
        self.scheduler.set_rate(rate, wall);
        proof {
            lemma_same_ctxs(old(self)@, self@);
        }
    }

    /// The context of that number is there.
    pub fn has(&self, id: u64) -> (r: bool)
        ensures
            r == self@.ctxs.contains_key(id),
    {
        self.ctxs.contains_key(&id)
    }

    /// The numbers for whatever a context does next have not run out.
    pub fn has_numbers(&self, id: u64) -> (r: bool)
        requires
            self.wf(),
            self@.ctxs.contains_key(id),
        ensures
            r == self@.has_numbers(id),
    {
        proof {
            self.lemma_wf();
        }
        let c: &CtxInner = self.ctx(id);
        self.executor.has_room() && self.scheduler.has_room() && self.tempos.has_room()
            && self.next_ctx < u64::MAX && self.next_rng < u64::MAX && c.rng_fork_counter
            < u64::MAX && self.next_barrier_wait < u64::MAX && self.next_handler < u64::MAX
            && self.tempo(c.tempo).can_change()
    }

    /// The context of that number.
    pub fn ctx(&self, id: u64) -> (r: &CtxInner)
        requires
            self@.ctxs.contains_key(id),
        ensures
            r@ == self@.ctxs[id],
    {
        match self.ctxs.get(&id) {
            Some(c) => c,
            None => {
                assert(self.ctxs@.contains_key(id));
                vstd::pervasive::unreached()
            },
        }
    }

    /// Takes a context out to change it.
    pub(crate) fn take_ctx(&mut self, id: u64) -> (r: CtxInner)
        requires
            old(self).wf(),
            old(self)@.ctxs.contains_key(id),
        ensures
            final(self).wf(),
            final(self)@ == (WorldView { ctxs: old(self)@.ctxs.remove(id), ..old(self)@ }),
            r@ == old(self)@.ctxs[id],
    {
        assert(self.ctxs@.contains_key(id));
        match self.ctxs.remove(&id) {
            Some(c) => {
                proof {
                    assert(self@.ctxs =~= old(self)@.ctxs.remove(id));
                    lemma_fewer_ctxs(old(self)@, self@);
                }
                c
            },
            None => vstd::pervasive::unreached(),
        }
    }

    /// Puts a context under its number.
    pub(crate) fn put_ctx(&mut self, c: CtxInner)
        requires
            old(self).wf(),
            c@.wf(old(self)@),
        ensures
            final(self).wf(),
            final(self)@ == old(self)@.with_ctx(c@),
    {
        self.ctxs.insert(c.id, c);
        proof {
            assert(self@.ctxs =~= old(self)@.ctxs.insert(c@.id, c@));
            assert forall|id: u64| #[trigger] self@.ctxs.contains_key(id) implies
                self@.ctxs[id].id == id && self@.ctxs[id].wf(self@) by {
                if id != c@.id {
                    assert(old(self)@.ctxs.contains_key(id));
                    lemma_ctx_wf_same(self@.ctxs[id], old(self)@, self@);
                } else {
                    lemma_ctx_wf_same(c@, old(self)@, self@);
                }
            }
        }
    }

    /// The tempo of that number.
    pub fn tempo(&self, id: u64) -> (r: &TempoMap)
        requires
            self.wf(),
            self@.tempos.maps.contains_key(id),
        ensures
            r.wf(),
            r@ == self@.tempos.maps[id],
    {
        self.tempos.get(id)
    }

    /// Sets a tempo from the latest time that any wait has reached.
    pub(crate) fn set_bpm(&mut self, id: u64, bpm: Flt)
        requires
            old(self).wf(),
            old(self)@.tempos.maps.contains_key(id),
            old(self)@.tempos.maps[id].version < u64::MAX,
        ensures
            final(self).wf(),
            final(self)@ == old(self)@.with_tempo(
                id,
                tempo::with_bpm(
                    old(self)@.tempos.maps[id].segs,
                    bpm,
                    old(self)@.sched.most_recent_desc_time,
                ),
            ),
    {
        let t: Flt = self.scheduler.most_recent();
        self.tempos.set_bpm(id, bpm, t);
        proof {
            lemma_grown(old(self)@, self@);
        }
        let ghost mid = self@;
        self.scheduler.on_tempo_changed(id, &self.tempos);
        proof {
            lemma_same_ctxs(mid, self@);
        }
    }

    /// Moves a tempo to a target over `dur` seconds from the latest time that
    /// any wait has reached.
    pub(crate) fn ramp_bpm(&mut self, id: u64, bpm: Flt, dur: Flt)
        requires
            old(self).wf(),
            old(self)@.tempos.maps.contains_key(id),
            old(self)@.tempos.maps[id].version < u64::MAX,
        ensures
            final(self).wf(),
            final(self)@ == old(self)@.with_tempo(
                id,
                tempo::with_ramp(
                    old(self)@.tempos.maps[id].segs,
                    bpm,
                    dur,
                    old(self)@.sched.most_recent_desc_time,
                ),
            ),
    {
        let t: Flt = self.scheduler.most_recent();
        self.tempos.ramp(id, bpm, dur, t);
        proof {
            lemma_grown(old(self)@, self@);
        }
        let ghost mid = self@;
        self.scheduler.on_tempo_changed(id, &self.tempos);
        proof {
            lemma_same_ctxs(mid, self@);
        }
    }

    /// Adds a tempo.
    pub(crate) fn add_tempo(&mut self, bpm: Flt) -> (r: u64)
        requires
            old(self).wf(),
            old(self)@.tempos.next < u64::MAX,
        ensures
            final(self).wf(),
            final(self)@ == (WorldView { tempos: old(self)@.tempos.created(bpm), ..old(self)@ }),
            r == old(self)@.tempos.next,
    {
        let r: u64 = self.tempos.create(bpm);
        proof {
            lemma_grown(old(self)@, self@);
        }
        r
    }

    /// Adds a copy of a tempo.
    pub(crate) fn copy_tempo(&mut self, id: u64) -> (r: u64)
        requires
            old(self).wf(),
            old(self)@.tempos.next < u64::MAX,
            old(self)@.tempos.maps.contains_key(id),
        ensures
            final(self).wf(),
            final(self)@ == (WorldView { tempos: old(self)@.tempos.copied(id), ..old(self)@ }),
            r == old(self)@.tempos.next,
    {
        let r: u64 = self.tempos.copy_of(id);
        proof {
            lemma_grown(old(self)@, self@);
        }
        r
    }

    /// Adds a generator.
    pub(crate) fn add_rng(&mut self, seed: &str) -> (r: u64)
        requires
            old(self).wf(),
            old(self)@.next_rng < u64::MAX,
        ensures
            final(self).wf(),
            final(self)@ == (WorldView {
                rngs: old(self)@.rngs.insert(
                    old(self)@.next_rng,
                    crate::rng::fnv(vstd::utf8::encode_utf8(seed@)),
                ),
                next_rng: (old(self)@.next_rng + 1) as u64,
                ..old(self)@
            }),
            r == old(self)@.next_rng,
    {
        let id: u64 = self.next_rng;
        let g: DetRng = DetRng::new(seed);
        self.rngs.insert(id, g);
        self.next_rng = id + 1;
        proof {
            assert(self@.rngs =~= old(self)@.rngs.insert(id, g@));
            lemma_grown(old(self)@, self@);
        }
        id
    }

    /// Draws from a generator.
    pub(crate) fn draw(&mut self, id: u64) -> (r: Flt)
        requires
            old(self).wf(),
            old(self)@.rngs.contains_key(id),
        ensures
            final(self).wf(),
            final(self)@ == (WorldView {
                rngs: old(self)@.rngs.insert(id, crate::rng::advanced(old(self)@.rngs[id])),
                ..old(self)@
            }),
            r == crate::rng::unit(crate::rng::mixed(crate::rng::advanced(old(self)@.rngs[id]))),
    {
        assert(self.rngs@.contains_key(id));
        match self.rngs.remove(&id) {
            Some(mut g) => {
                let r: Flt = g.random();
                self.rngs.insert(id, g);
                proof {
                    assert(self@.rngs =~= old(self)@.rngs.insert(id, g@));
                    lemma_grown(old(self)@, self@);
                }
                r
            },
            None => vstd::pervasive::unreached(),
        }
    }

    /// Hands out the number of the next context.
    pub(crate) fn next_ctx_id(&mut self) -> (r: u64)
        requires
            old(self).wf(),
            old(self)@.next_ctx < u64::MAX,
        ensures
            final(self).wf(),
            final(self)@ == (WorldView {
                next_ctx: (old(self)@.next_ctx + 1) as u64,
                ..old(self)@
            }),
            r == old(self)@.next_ctx,
    {
        let id: u64 = self.next_ctx;
        self.next_ctx = id + 1;
        proof {
            lemma_grown(old(self)@, self@);
        }
        id
    }

    /// Forgets a context that nobody holds any more.
    pub fn release(&mut self, id: u64)
        requires
            old(self).wf(),
        ensures
            final(self).wf(),
            final(self)@ == (WorldView { ctxs: old(self)@.ctxs.remove(id), ..old(self)@ }),
    {
        self.ctxs.remove(&id);
        proof {
            assert(self@.ctxs =~= old(self)@.ctxs.remove(id));
            lemma_fewer_ctxs(old(self)@, self@);
        }
    }

    /// Moves the time of a context.
    pub(crate) fn set_time(&mut self, id: u64, t: Flt)
        requires
            old(self).wf(),
            old(self)@.ctxs.contains_key(id),
        ensures
            final(self).wf(),
            final(self)@ == old(self)@.with_time(id, t),
    {
        let mut c: CtxInner = self.take_ctx(id);
        c.time = t;
        proof {
            lemma_ctx_wf_same(old(self)@.ctxs[id], old(self)@, self@);
            lemma_ctx_wf_kept(old(self)@.ctxs[id], c@, self@);
        }
        self.put_ctx(c);
        assert(self@.ctxs =~= old(self)@.with_time(id, t).ctxs);
    }

    /// Moves the latest time that any wait has reached up to `t`.
    pub(crate) fn reach(&mut self, t: Flt)
        requires
            old(self).wf(),
        ensures
            final(self).wf(),
            final(self)@ == old(self)@.with_reached(t),
    {
        let m: Flt = self.scheduler.most_recent().max(t);
        self.scheduler.set_most_recent(m);
        proof {
            lemma_same_ctxs(old(self)@, self@);
        }
    }

    /// Notes that a registered wait came due.
    pub(crate) fn settle(&mut self, id: u64)
        requires
            old(self).wf(),
        ensures
            final(self).wf(),
            final(self)@ == old(self)@.with_wait_ok(id),
    {
        match self.waits.remove(&id) {
            Some(mut s) => {
                let task: Option<u64> = s.complete_ok();
                self.waits.insert(id, s);
                proof {
                    lemma_same_ctxs(old(self)@, self@);
                    assert(self@.waits =~= old(self)@.waits.insert(id, s));
                }
                self.wake_opt(task);
            },
            None => {
                assert(self@.waits =~= old(self)@.waits);
                proof {
                    lemma_same_ctxs(old(self)@, self@);
                }
            },
        }
    }

    /// Notes that a registered wait was cancelled.
    pub(crate) fn settle_cancelled(&mut self, id: u64)
        requires
            old(self).wf(),
        ensures
            final(self).wf(),
            final(self)@ == old(self)@.with_wait_cancelled(id),
    {
        match self.waits.remove(&id) {
            Some(mut s) => {
                let task: Option<u64> = s.complete_cancelled();
                self.waits.insert(id, s);
                proof {
                    lemma_same_ctxs(old(self)@, self@);
                    assert(self@.waits =~= old(self)@.waits.insert(id, s));
                }
                self.wake_opt(task);
            },
            None => {
                assert(self@.waits =~= old(self)@.waits);
                proof {
                    lemma_same_ctxs(old(self)@, self@);
                }
            },
        }
    }

    /// How a registered wait stands.
    pub(crate) fn wait_state(&self, id: u64) -> (r: WaitStateInner)
        ensures
            r == (if self@.waits.contains_key(id) {
                self@.waits[id]
            } else {
                WaitStateInner::fresh()
            }),
    {
        match self.waits.get(&id) {
            Some(s) => WaitStateInner { done: s.done, cancelled: s.cancelled, waker: s.waker },
            None => WaitStateInner::new(),
        }
    }

    /// Drops what is known of a wait.
    pub(crate) fn forget_wait(&mut self, id: u64)
        requires
            old(self).wf(),
        ensures
            final(self).wf(),
            final(self)@ == (WorldView { waits: old(self)@.waits.remove(id), ..old(self)@ }),
    {
        self.waits.remove(&id);
        proof {
            lemma_same_ctxs(old(self)@, self@);
        }
    }

    /// Tells a registered wait which task to wake.
    pub(crate) fn rearm_wait(&mut self, id: u64, waker: u64)
        requires
            old(self).wf(),
        ensures
            final(self).wf(),
            final(self)@ == old(self)@.rearmed(id, waker),
    {
        match self.waits.remove(&id) {
            Some(mut s) => {
                s.set_waker(waker);
                self.waits.insert(id, s);
                assert(self@.waits =~= old(self)@.waits.insert(id, s));
            },
            None => {
                assert(self@.waits =~= old(self)@.waits);
            },
        }
        proof {
            lemma_same_ctxs(old(self)@, self@);
        }
    }

    /// Hands out a number for a wait that wakes `waker`.
    pub(crate) fn new_wait(&mut self, waker: u64) -> (r: u64)
        requires
            old(self).wf(),
            old(self)@.sched.seq < u64::MAX,
        ensures
            final(self).wf(),
            final(self)@ == (WorldView {
                sched: SchedView { seq: (old(self)@.sched.seq + 1) as u64, ..old(self)@.sched },
                waits: old(self)@.waits.insert(
                    old(self)@.sched.seq,
                    WaitStateInner { done: false, cancelled: false, waker: Some(waker) },
                ),
                ..old(self)@
            }),
            r == old(self)@.sched.seq,
    {
        let id: u64 = self.scheduler.alloc_seq();
        let mut s: WaitStateInner = WaitStateInner::new();
        s.set_waker(waker);
        self.waits.insert(id, s);
        proof {
            lemma_same_ctxs(old(self)@, self@);
        }
        id
    }

    /// Queues a wait for a time.
    pub(crate) fn add_time_wait(&mut self, meta: TimeWaitMeta)
        requires
            old(self).wf(),
        ensures
            final(self).wf(),
            final(self)@ == (WorldView {
                sched: old(self)@.sched.with_time_wait(meta),
                ..old(self)@
            }),
    {
        self.scheduler.add_time_wait(meta);
        proof {
            lemma_same_ctxs(old(self)@, self@);
        }
    }

    /// Queues a wait for a beat.
    pub(crate) fn add_beat_wait(&mut self, meta: BeatWaitMeta)
        requires
            old(self).wf(),
            old(self)@.tempos.maps.contains_key(meta.tempo_id),
        ensures
            final(self).wf(),
            final(self)@ == (WorldView {
                sched: old(self)@.sched.with_beat_wait(old(self)@.tempos.maps, meta),
                ..old(self)@
            }),
    {
        self.scheduler.add_beat_wait(meta, &self.tempos);
        proof {
            lemma_same_ctxs(old(self)@, self@);
        }
    }

    /// Queues a wait for the next frame.
    pub(crate) fn add_frame_wait(&mut self, meta: FrameWaitMeta)
        requires
            old(self).wf(),
        ensures
            final(self).wf(),
            final(self)@ == (WorldView {
                sched: old(self)@.sched.with_frame_wait(meta),
                ..old(self)@
            }),
    {
        self.scheduler.add_frame_wait(meta);
        proof {
            lemma_same_ctxs(old(self)@, self@);
        }
    }

    /// How a wait for a barrier stands.
    pub(crate) fn barrier_wait_state(&self, id: u64) -> (r: WaitStateInner)
        ensures
            r == (if self@.barrier_waits.contains_key(id) {
                self@.barrier_waits[id]
            } else {
                WaitStateInner::fresh()
            }),
    {
        match self.barrier_waits.get(&id) {
            Some(s) => WaitStateInner { done: s.done, cancelled: s.cancelled, waker: s.waker },
            None => WaitStateInner::new(),
        }
    }

    /// Replaces what is known of a wait for a barrier.
    pub(crate) fn set_barrier_wait(&mut self, id: u64, s: WaitStateInner)
        requires
            old(self).wf(),
        ensures
            final(self).wf(),
            final(self)@ == (WorldView {
                barrier_waits: old(self)@.barrier_waits.insert(id, s),
                ..old(self)@
            }),
    {
        self.barrier_waits.insert(id, s);
        proof {
            lemma_same_ctxs(old(self)@, self@);
        }
    }

    /// Drops what is known of a wait for a barrier.
    pub(crate) fn forget_barrier_wait(&mut self, id: u64)
        requires
            old(self).wf(),
        ensures
            final(self).wf(),
            final(self)@ == (WorldView {
                barrier_waits: old(self)@.barrier_waits.remove(id),
                ..old(self)@
            }),
    {
        self.barrier_waits.remove(&id);
        proof {
            lemma_same_ctxs(old(self)@, self@);
        }
    }

    /// Hands out a number for a wait for a barrier that wakes `waker`.
    pub(crate) fn new_barrier_wait(&mut self, waker: u64) -> (r: u64)
        requires
            old(self).wf(),
            old(self)@.next_barrier_wait < u64::MAX,
        ensures
            final(self).wf(),
            final(self)@ == (WorldView {
                next_barrier_wait: (old(self)@.next_barrier_wait + 1) as u64,
                barrier_waits: old(self)@.barrier_waits.insert(
                    old(self)@.next_barrier_wait,
                    WaitStateInner { done: false, cancelled: false, waker: Some(waker) },
                ),
                ..old(self)@
            }),
            r == old(self)@.next_barrier_wait,
    {
        let id: u64 = self.next_barrier_wait;
        self.next_barrier_wait = id + 1;
        let mut s: WaitStateInner = WaitStateInner::new();
        s.set_waker(waker);
        self.barrier_waits.insert(id, s);
        proof {
            lemma_same_ctxs(old(self)@, self@);
        }
        id
    }

    /// Notes that a wait for a barrier is over.
    pub(crate) fn settle_barrier(&mut self, id: u64)
        requires
            old(self).wf(),
        ensures
            final(self).wf(),
            final(self)@ == old(self)@.with_barrier_ok(id),
    {
        if self.barrier_waits.contains_key(&id) {
            let mut s: WaitStateInner = self.barrier_wait_state(id);
            let task: Option<u64> = s.complete_ok();
            self.set_barrier_wait(id, s);
            self.wake_opt(task);
        }
    }

    /// Notes that a wait for a barrier was cancelled.
    pub(crate) fn settle_barrier_cancelled(&mut self, id: u64)
        requires
            old(self).wf(),
        ensures
            final(self).wf(),
            final(self)@ == old(self)@.with_barrier_cancelled(id),
    {
        if self.barrier_waits.contains_key(&id) {
            let mut s: WaitStateInner = self.barrier_wait_state(id);
            let task: Option<u64> = s.complete_cancelled();
            self.set_barrier_wait(id, s);
            self.wake_opt(task);
        }
    }

    /// Where the barrier of that name stands.
    pub(crate) fn find_barrier(&self, root_id: u64, key: &String) -> (r: Option<usize>)
        ensures
            match r {
                Some(i) => barrier::has(self@.barriers, root_id, key@) && i == barrier::at(
                    self@.barriers,
                    root_id,
                    key@,
                ) && i < self@.barriers.len(),
                None => !barrier::has(self@.barriers, root_id, key@),
            },
    {
        let mut i: usize = 0;
        while i < self.barriers.len()
            invariant
                i <= self.barriers.len(),
                forall|j: int|
                    0 <= j < i ==> !(#[trigger] self@.barriers[j]).named(root_id, key@),
            decreases self.barriers.len() - i,
        {
            let b: &BarrierState = &self.barriers[i];
            if b.root_id == root_id && b.key == *key {
                proof {
                    assert(self@.barriers[i as int].named(root_id, key@));
                    barrier::lemma_at(self@.barriers, root_id, key@, i as int);
                }
                return Some(i);
            }
            assert(!self@.barriers[i as int].named(root_id, key@));
            i = i + 1;
        }
        None
    }

    /// Something is known of that wait for a barrier.
    pub(crate) fn has_barrier_wait(&self, id: u64) -> (r: bool)
        ensures
            r == self@.barrier_waits.contains_key(id),
    {
        self.barrier_waits.contains_key(&id)
    }

    /// How many barriers there are.
    pub(crate) fn barrier_count(&self) -> (r: usize)
        ensures
            r == self@.barriers.len(),
    {
        self.barriers.len()
    }

    /// The barrier at that place.
    pub(crate) fn barrier_at(&self, i: usize) -> (r: &BarrierState)
        requires
            i < self@.barriers.len(),
        ensures
            r@ == self@.barriers[i as int],
    {
        &self.barriers[i]
    }

    /// Adds a barrier.
    pub(crate) fn push_barrier(&mut self, b: BarrierState)
        requires
            old(self).wf(),
        ensures
            final(self).wf(),
            final(self)@ == (WorldView {
                barriers: old(self)@.barriers.push(b@),
                ..old(self)@
            }),
    {
        self.barriers.push(b);
        proof {
            assert(self@.barriers =~= old(self)@.barriers.push(b@));
            lemma_same_ctxs(old(self)@, self@);
        }
    }

    /// Changes how far a barrier has come, and takes those who wait for it
    /// out where `drain` says so.
    pub(crate) fn update_barrier(
        &mut self,
        i: usize,
        resolved: Flt,
        in_progress: bool,
        start: Flt,
        drain: bool,
    ) -> (r: Vec<BarrierWaiter>)
        requires
            old(self).wf(),
            i < old(self)@.barriers.len(),
        ensures
            final(self).wf(),
            final(self)@ == (WorldView {
                barriers: old(self)@.barriers.update(
                    i as int,
                    (BarrierView {
                        resolved,
                        in_progress,
                        start,
                        waiters: if drain {
                            Seq::empty()
                        } else {
                            old(self)@.barriers[i as int].waiters
                        },
                        ..old(self)@.barriers[i as int]
                    }),
                ),
                ..old(self)@
            }),
            r@ == (if drain {
                old(self)@.barriers[i as int].waiters
            } else {
                Seq::empty()
            }),
    {
        let mut b: BarrierState = self.barriers.remove(i);
        let mut out: Vec<BarrierWaiter> = Vec::new();
        if drain {
            std::mem::swap(&mut out, &mut b.waiters);
        }
        b.last_resolved_time = resolved;
        b.in_progress = in_progress;
        b.start_time = start;
        self.barriers.insert(i, b);
        proof {
            assert(self@.barriers =~= old(self)@.barriers.update(i as int, b@));
            lemma_same_ctxs(old(self)@, self@);
        }
        out
    }

    /// Adds someone who waits for a barrier.
    pub(crate) fn join_barrier(&mut self, i: usize, x: BarrierWaiter)
        requires
            old(self).wf(),
            i < old(self)@.barriers.len(),
        ensures
            final(self).wf(),
            final(self)@ == (WorldView {
                barriers: old(self)@.barriers.update(
                    i as int,
                    (BarrierView {
                        waiters: old(self)@.barriers[i as int].waiters.push(x),
                        ..old(self)@.barriers[i as int]
                    }),
                ),
                ..old(self)@
            }),
    {
        let mut b: BarrierState = self.barriers.remove(i);
        b.waiters.push(x);
        self.barriers.insert(i, b);
        proof {
            assert(self@.barriers =~= old(self)@.barriers.update(i as int, b@));
            lemma_same_ctxs(old(self)@, self@);
        }
    }

    /// Forgets all barriers.
    pub(crate) fn drop_barriers(&mut self)
        requires
            old(self).wf(),
        ensures
            final(self).wf(),
            final(self)@ == (WorldView { barriers: Seq::empty(), ..old(self)@ }),
    {
        self.barriers.clear();
        proof {
            assert(self@.barriers =~= Seq::empty());
            lemma_same_ctxs(old(self)@, self@);
        }
    }

    /// The number of the root of a context's tree, while that context is
    /// there; else its own.
    pub(crate) fn root_of(&self, id: u64) -> (r: u64)
        requires
            self@.ctxs.contains_key(id),
        ensures
            r == self@.root_of(id),
    {
        match self.ctx(id).root {
            Some(root) => {
                if self.has(root) {
                    root
                } else {
                    id
                }
            },
            None => id,
        }
    }

    /// Takes a waiter out of its queue and, where it was there, notes that its
    /// wait was cancelled.
    pub(crate) fn cancel_waiter(&mut self, id: u64, kind: WaiterKind)
        requires
            old(self).wf(),
            kind_known(old(self)@.tempos, kind),
        ensures
            final(self).wf(),
            final(self)@ == old(self)@.with_waiter_cancelled(id, kind),
    {
        let there: bool = self.scheduler.cancel_waiter(id, kind, &self.tempos);
        proof {
            lemma_same_ctxs(old(self)@, self@);
        }
        if there {
            self.settle_cancelled(id);
        }
    }

    /// Cancels these waiters, one after the other.
    pub(crate) fn cancel_waiters(&mut self, ws: &Vec<(u64, WaiterKind)>)
        requires
            old(self).wf(),
            forall|i: int|
                0 <= i < ws@.len() ==> kind_known(old(self)@.tempos, (#[trigger] ws@[i]).1),
        ensures
            final(self).wf(),
            final(self)@ == old(self)@.with_waiters_cancelled(ws@),
            final(self)@.ctxs == old(self)@.ctxs,
            final(self)@.tempos == old(self)@.tempos,
            final(self)@.next_ctx == old(self)@.next_ctx,
    {
        let mut i: usize = 0;
        assert(ws@.take(0) =~= Seq::empty());
        while i < ws.len()
            invariant
                self.wf(),
                i <= ws.len(),
                self@ == old(self)@.with_waiters_cancelled(ws@.take(i as int)),
                self@.ctxs == old(self)@.ctxs,
                self@.tempos == old(self)@.tempos,
                self@.next_ctx == old(self)@.next_ctx,
                forall|j: int|
                    0 <= j < ws@.len() ==> kind_known(old(self)@.tempos, (#[trigger] ws@[j]).1),
            decreases ws.len() - i,
        {
            assert(ws@.take(i + 1).drop_last() =~= ws@.take(i as int));
            let (id, kind) = ws[i];
            assert(kind_known(old(self)@.tempos, ws@[i as int].1));
            self.cancel_waiter(id, kind);
            i = i + 1;
        }
        assert(ws@.take(i as int) =~= ws@);
    }

    /// Has the host run these cancel handlers.
    pub(crate) fn fire(&mut self, handlers: Vec<u64>)
        requires
            old(self).wf(),
        ensures
            final(self).wf(),
            final(self)@ == (WorldView {
                fired: old(self)@.fired + handlers@,
                ..old(self)@
            }),
    {
        let mut handlers: Vec<u64> = handlers;
        self.fired.append(&mut handlers);
        proof {
            lemma_same_ctxs(old(self)@, self@);
        }
    }

    /// Hands out the cancel handlers that the host is to run, the first one
    /// first.
    pub fn take_fired(&mut self) -> (r: Vec<u64>)
        requires
            old(self).wf(),
        ensures
            final(self).wf(),
            final(self)@ == (WorldView { fired: Seq::empty(), ..old(self)@ }),
            r@ == old(self)@.fired,
    {
        let mut r: Vec<u64> = Vec::new();
        std::mem::swap(&mut r, &mut self.fired);
        proof {
            lemma_same_ctxs(old(self)@, self@);
        }
        r
    }

    /// Hands out the number of the next cancel handler.
    pub(crate) fn next_handler_id(&mut self) -> (r: u64)
        requires
            old(self).wf(),
            old(self)@.next_handler < u64::MAX,
        ensures
            final(self).wf(),
            final(self)@ == (WorldView {
                next_handler: (old(self)@.next_handler + 1) as u64,
                ..old(self)@
            }),
            r == old(self)@.next_handler,
    {
        let id: u64 = self.next_handler;
        self.next_handler = id + 1;
        proof {
            lemma_same_ctxs(old(self)@, self@);
        }
        id
    }

    /// Cancels a context and all that descend from it.
    pub(crate) fn cancel(&mut self, id: u64)
        requires
            old(self).wf(),
        ensures
            final(self).wf(),
            final(self)@ == old(self)@.cancelled(id),
            final(self)@.ctxs.dom() == old(self)@.ctxs.dom(),
        decreases u64::MAX - id,
    {
        if !self.has(id) {
            return ;
        }
        if self.ctx(id).canceled {
            return ;
        }
        let mut c: CtxInner = self.take_ctx(id);
        let ghost was = c@;
        let children: Vec<u64> = c.children.clone();
        assert(children@ =~= was.children);
        let mut waiters: Vec<(u64, WaiterKind)> = Vec::new();
        std::mem::swap(&mut waiters, &mut c.pending_waiters);
        let mut handlers: Vec<u64> = Vec::new();
        std::mem::swap(&mut handlers, &mut c.cancel_handlers);
        c.canceled = true;
        proof {
            old(self).lemma_wf();
            lemma_ctx_wf_same(was, old(self)@, self@);
        }
        self.put_ctx(c);
        self.fire(handlers);
        let ghost marked = self@;
        proof {
            assert(marked =~= old(self)@.with_mark(id));
            assert(marked.ctxs.dom() =~= old(self)@.ctxs.dom());
        }
        self.cancel_waiters(&waiters);
        let ghost quiet = self@;
        let mut i: usize = 0;
        while i < children.len()
            invariant
                self.wf(),
                i <= children.len(),
                children@ == was.children,
                forall|j: int| 0 <= j < children@.len() ==> id < #[trigger] children@[j],
                self@ == quiet.with_children_cancelled(id, was.children, i as nat),
                self@.ctxs.dom() == old(self)@.ctxs.dom(),
            decreases children.len() - i,
        {
            let k: u64 = children[i];
            assert(id < children@[i as int]);
            self.cancel(k);
            i = i + 1;
        }
    }

    /// Notes that these waits came due, one after the other.
    fn settle_all(&mut self, ids: &Vec<u64>)
        requires
            old(self).wf(),
        ensures
            final(self).wf(),
            final(self)@ == old(self)@.with_all_ok(ids@),
            final(self)@.ctxs == old(self)@.ctxs,
    {
        let mut i: usize = 0;
        while i < ids.len()
            invariant
                self.wf(),
                i <= ids.len(),
                self@ == old(self)@.with_all_ok(ids@.take(i as int)),
                self@.ctxs == old(self)@.ctxs,
            decreases ids.len() - i,
        {
            assert(ids@.take(i + 1).drop_last() =~= ids@.take(i as int));
            self.settle(ids[i]);
            i = i + 1;
        }
        assert(ids@.take(i as int) =~= ids@);
    }

    /// Lets the waits that are due first come due, and says which they were.
    pub fn process_one_timeslice(&mut self) -> (r: Vec<u64>)
        requires
            old(self).wf(),
        ensures
            final(self).wf(),
            final(self)@ == old(self)@.with_slice(),
            final(self)@.ctxs == old(self)@.ctxs,
            r@ == old(self)@.sched.sliced(old(self)@.tempos.maps).1,
    {
        let ids: Vec<u64> = self.scheduler.process_one_timeslice(&self.tempos);
        proof {
            lemma_sliced_covered(old(self)@.sched, old(self)@.tempos.maps);
            lemma_same_ctxs(old(self)@, self@);
        }
        self.settle_all(&ids);
        ids
    }

    /// Lets all waits for the next frame come due, and says which they were.
    pub fn resolve_all_frame_waiters(&mut self) -> (r: Vec<u64>)
        requires
            old(self).wf(),
        ensures
            final(self).wf(),
            final(self)@ == old(self)@.with_frame(),
            final(self)@.ctxs == old(self)@.ctxs,
            r@ == crate::pq::due(old(self)@.sched.frames, Flt::zero()),
    {
        let ids: Vec<u64> = self.scheduler.resolve_all_frame_waiters();
        proof {
            lemma_same_ctxs(old(self)@, self@);
        }
        self.settle_all(&ids);
        ids
    }
}

/// A context that is well-formed stays so while tempos and generators are
/// kept and numbers only grow.
pub proof fn lemma_ctx_wf_same(c: CtxView, a: WorldView, b: WorldView)
    requires
        c.wf(a),
        a.next_ctx <= b.next_ctx,
        forall|id: u64| #[trigger]
            a.tempos.maps.contains_key(id) ==> b.tempos.maps.contains_key(id),
        forall|id: u64| #[trigger] a.rngs.contains_key(id) ==> b.rngs.contains_key(id),
    ensures
        c.wf(b),
{
    assert forall|i: int| 0 <= i < c.waiters.len() implies kind_known(
        b.tempos,
        (#[trigger] c.waiters[i]).1,
    ) by {
        assert(kind_known(a.tempos, c.waiters[i].1));
    }
}

/// So it does while its waits, its children, its tempo and its generator
/// stay.
pub proof fn lemma_ctx_wf_kept(c: CtxView, d: CtxView, w: WorldView)
    requires
        c.wf(w),
        d.id == c.id,
        d.tempo == c.tempo,
        d.rng == c.rng,
        d.children == c.children,
        d.waiters == c.waiters,
    ensures
        d.wf(w),
{
}

/// What changes neither contexts nor tempos nor generators keeps the whole
/// well-formed.
pub proof fn lemma_same_ctxs(a: WorldView, b: WorldView)
    requires
        a.wf(),
        a.ctxs == b.ctxs,
        a.tempos == b.tempos,
        a.rngs == b.rngs,
        a.next_ctx == b.next_ctx,
        a.next_rng == b.next_rng,
        b.sched.covered(b.tempos.maps),
    ensures
        b.wf(),
{
    lemma_fewer_ctxs(a, b);
}

/// So does adding tempos and generators.
pub proof fn lemma_grown(a: WorldView, b: WorldView)
    requires
        a.wf(),
        a.ctxs == b.ctxs,
        a.sched == b.sched,
        forall|id: u64| #[trigger]
            a.tempos.maps.contains_key(id) ==> b.tempos.maps.contains_key(id),
        forall|id: u64| #[trigger] a.rngs.contains_key(id) ==> b.rngs.contains_key(id),
        forall|id: u64| #[trigger] b.rngs.contains_key(id) ==> id < b.next_rng,
        forall|id: u64| #[trigger] b.tempos.maps.contains_key(id) ==> id < b.tempos.next,
        a.next_ctx <= b.next_ctx,
    ensures
        b.wf(),
{
    assert forall|id: u64| #[trigger] b.ctxs.contains_key(id) implies b.ctxs[id].id == id
        && b.ctxs[id].wf(b) by {
        lemma_ctx_wf_same(a.ctxs[id], a, b);
    }
}

/// So does forgetting contexts.
proof fn lemma_fewer_ctxs(a: WorldView, b: WorldView)
    requires
        a.wf(),
        forall|id: u64| #[trigger]
            b.ctxs.contains_key(id) ==> a.ctxs.contains_key(id) && b.ctxs[id] == a.ctxs[id],
        a.tempos == b.tempos,
        a.rngs == b.rngs,
        a.next_ctx == b.next_ctx,
        a.next_rng == b.next_rng,
        b.sched.covered(b.tempos.maps),
    ensures
        b.wf(),
{
    assert forall|id: u64| #[trigger] b.ctxs.contains_key(id) implies b.ctxs[id].id == id
        && b.ctxs[id].wf(b) by {
        lemma_ctx_wf_same(a.ctxs[id], a, b);
    }
}

/// Letting waits come due asks for no new tempo.
proof fn lemma_sliced_covered(s: SchedView, tempos: Map<u64, crate::tempo::TempoView>)
    requires
        s.covered(tempos),
    ensures
        s.sliced(tempos).0.covered(tempos),
{
}

/// The waits without those of that number.
pub(crate) fn remove_waiter(s: &Vec<(u64, WaiterKind)>, id: u64) -> (r: Vec<(u64, WaiterKind)>)
    ensures
        r@ == without_waiter(s@, id),
{
    let mut out: Vec<(u64, WaiterKind)> = Vec::new();
    let mut i: usize = 0;
    assert(s@.take(0) =~= Seq::empty());
    while i < s.len()
        invariant
            i <= s.len(),
            out@ == without_waiter(s@.take(i as int), id),
        decreases s.len() - i,
    {
        assert(s@.take(i + 1).drop_last() =~= s@.take(i as int));
        if s[i].0 != id {
            out.push(s[i]);
        }
        i = i + 1;
    }
    assert(s@.take(i as int) =~= s@);
    out
}

impl WorldView {
    /// After a wait was made that nobody polls yet.
    pub open spec fn with_new_wait(self) -> WorldView {
        WorldView {
            sched: SchedView { seq: (self.sched.seq + 1) as u64, ..self.sched },
            waits: self.waits.insert(self.sched.seq, WaitStateInner::fresh()),
            ..self
        }
    }
}

impl WaitState {
    /// The wait is there.
    pub open spec fn known(self, w: &World) -> bool {
        w.wf() && w@.waits.contains_key(self.id)
    }

    /// A new wait, with nobody to wake.
    pub fn new(w: &mut World) -> (r: Self)
        requires
            old(w).wf(),
            old(w)@.sched.seq < u64::MAX,
        ensures
            r.known(final(w)),
            r.id == old(w)@.sched.seq,
            final(w)@ == old(w)@.with_new_wait(),
    {
        let id: u64 = w.scheduler.alloc_seq();
        w.waits.insert(id, WaitStateInner::new());
        proof {
            lemma_same_ctxs(old(w)@, w@);
            assert(w@ =~= old(w)@.with_new_wait());
        }
        WaitState { id }
    }

    /// Sets the task to wake.
    pub fn set_waker(&self, w: &mut World, waker: u64)
        requires
            self.known(old(w)),
        ensures
            self.known(final(w)),
            final(w)@ == old(w)@.rearmed(self.id, waker),
    {
        w.rearm_wait(self.id, waker);
    }

    /// Notes that it came due, and wakes the task. What is settled stays as it
    /// is.
    pub fn complete_ok(&self, w: &mut World)
        requires
            self.known(old(w)),
        ensures
            self.known(final(w)),
            final(w)@ == old(w)@.with_wait_ok(self.id),
            final(w)@.waits[self.id] == old(w)@.waits[self.id].after_ok(),
    {
        w.settle(self.id);
    }

    /// Notes that it was cancelled, and wakes the task. What is settled stays
    /// as it is.
    pub fn complete_cancelled(&self, w: &mut World)
        requires
            self.known(old(w)),
        ensures
            self.known(final(w)),
            final(w)@ == old(w)@.with_wait_cancelled(self.id),
            final(w)@.waits[self.id] == old(w)@.waits[self.id].after_cancel(),
    {
        w.settle_cancelled(self.id);
    }

    /// It came due.
    pub fn is_done(&self, w: &World) -> (r: bool)
        requires
            self.known(w),
        ensures
            r == w@.waits[self.id].done,
    {
        w.wait_state(self.id).is_done()
    }

    /// It was cancelled.
    pub fn is_cancelled(&self, w: &World) -> (r: bool)
        requires
            self.known(w),
        ensures
            r == w@.waits[self.id].cancelled,
    {
        w.wait_state(self.id).is_cancelled()
    }

    /// Done or cancelled.
    pub fn is_complete(&self, w: &World) -> (r: bool)
        requires
            self.known(w),
        ensures
            r == w@.waits[self.id].settled(),
    {
        w.wait_state(self.id).is_complete()
    }
}

} // verus!

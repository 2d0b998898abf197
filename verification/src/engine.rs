//! The loops that drive tasks and waits, in real time and in steps.
//!
//! The host polls the tasks and sleeps; in between it asks the engine what
//! comes next. To drain means to poll until no task is ready.
use vstd::prelude::*;

use crate::context::{clamp_forward, Ctx};
use crate::context;
use crate::executor::Task;
use crate::flt::Flt;
use crate::scheduler::{SchedView, SchedulerMode, TimeScheduler};
use crate::world::{World, WorldView};

verus! {

/// How many slices of time one advance may take.
pub const MAX_TIMESLICES: usize = 200_000;

/// How an engine starts.
#[derive(Debug)]
pub struct EngineConfig {
    /// The tempo of the root.
    pub bpm: Flt,
    /// The seed of the root.
    pub seed: String,
    /// The frames in a second.
    pub fps: Flt,
    /// How fast logical time runs.
    pub rate: Flt,
}

impl Clone for EngineConfig {
    fn clone(&self) -> (r: Self)
        ensures
            r == *self,
    {
        EngineConfig { bpm: self.bpm, seed: self.seed.clone(), fps: self.fps, rate: self.rate }
    }
}

impl Default for EngineConfig {
    fn default() -> (r: Self)
        ensures
            r.bpm == Flt::sixty(),
            r.seed@ == "default"@,
            r.fps == Flt::sixty(),
            r.rate == Flt::one(),
    {
        EngineConfig {
            bpm: Flt::sixty(),
            seed: "default".to_owned(),
            fps: Flt::sixty(),
            rate: Flt::one(),
        }
    }
}

/// What an advance waits for.
#[derive(Clone, Copy, Debug, PartialEq, Eq, Structural)]
pub enum AdvanceStage {
    /// The drain that lets new tasks register their waits.
    First,
    /// The drain after a slice of time.
    Slice,
    /// The drain at the target.
    Last,
    /// Nothing: the target is reached.
    Over,
    /// Nothing: there were too many slices.
    Overrun,
}

/// An advance to a target time.
#[derive(Clone, Copy, Debug, PartialEq, Eq, Structural)]
pub struct Advance {
    /// The time to reach.
    pub target: Flt,
    /// The slices that were drained.
    pub processed: usize,
    /// What it waits for.
    pub stage: AdvanceStage,
}

/// A frame tick.
#[derive(Clone, Copy, Debug, PartialEq, Eq, Structural)]
pub enum Tick {
    /// The drain after the waits for the frame came due.
    Draining {
        /// The time of the tick.
        t: Flt,
    },
    /// The advance that catches waits up to the time of the tick.
    Settling(Advance),
}

/// A number of frames.
#[derive(Clone, Copy, Debug, PartialEq, Eq, Structural)]
pub enum Frames {
    /// The advance to the time of a frame.
    Stepping {
        /// The frames that are left, this one included.
        left: usize,
        /// How far it has come.
        advance: Advance,
    },
    /// The tick of a frame.
    Ticking {
        /// The frames that are left, this one included.
        left: usize,
        /// How far it has come.
        tick: Tick,
    },
    /// All frames are over.
    Over,
    /// There were too many slices on the way to this time.
    Overrun {
        /// The time to reach.
        target: Flt,
    },
}

/// What the host does next in real time.
#[derive(Clone, Copy, Debug, PartialEq, Eq, Structural)]
pub enum LoopStep {
    /// It stops.
    Done,
    /// It asks once more whether it is done, and pauses if not.
    Ask,
    /// It sleeps for a millisecond, then drains.
    Pause,
    /// It drains.
    Drain,
    /// It sleeps for so many seconds, then drains.
    Sleep(Flt),
}

impl WorldView {
    /// With another logical time for stepping.
    pub open spec fn at_time(self, t: Flt) -> WorldView {
        WorldView { sched: SchedView { offline_now: t, ..self.sched }, ..self }
    }
}

/// An advance to `target`, or to 0 if that is later, before its first drain.
pub open spec fn advance_start(target: Flt) -> Advance {
    Advance { target: target.larger(Flt::zero()), processed: 0, stage: AdvanceStage::First }
}

/// The next slice of an advance: the waits due first, if they are due by the
/// target, else the target itself.
pub open spec fn advance_on(w: WorldView, a: Advance) -> (WorldView, Advance) {
    match w.sched.next_event() {
        Some(t) => if a.target.less(t) {
            (w.at_time(a.target), Advance { stage: AdvanceStage::Last, ..a })
        } else {
            (w.at_time(t).with_slice(), Advance { stage: AdvanceStage::Slice, ..a })
        },
        None => (w.at_time(a.target), Advance { stage: AdvanceStage::Last, ..a }),
    }
}

/// How an advance goes on after a drain.
pub open spec fn advance_next(w: WorldView, a: Advance) -> (WorldView, Advance) {
    match a.stage {
        AdvanceStage::First => advance_on(w, a),
        AdvanceStage::Slice => {
            let b = Advance { processed: (a.processed + 1) as usize, ..a };
            if b.processed > MAX_TIMESLICES {
                (w, Advance { stage: AdvanceStage::Overrun, ..b })
            } else {
                advance_on(w, b)
            }
        },
        AdvanceStage::Last => (w, Advance { stage: AdvanceStage::Over, ..a }),
        _ => (w, a),
    }
}

/// How a tick goes on after a drain.
pub open spec fn tick_next(w: WorldView, k: Tick) -> (WorldView, Tick) {
    match k {
        Tick::Draining { t } => (w, Tick::Settling(advance_start(t))),
        Tick::Settling(a) => {
            let (v, b) = advance_next(w, a);
            (v, Tick::Settling(b))
        },
    }
}

/// The time by which a step of `dt` seconds ends, `wall` seconds after the
/// wall-clock anchor.
pub open spec fn step_target(w: WorldView, dt: Flt, wall: Flt) -> Flt {
    w.sched.now(wall).plus(context::forward(dt))
}

/// The start of so many frames.
pub open spec fn frames_start(w: WorldView, fps: Flt, n: usize, wall: Flt) -> Frames {
    if n == 0 {
        Frames::Over
    } else {
        let dt = Flt::one().over(fps);
        Frames::Stepping { left: n, advance: advance_start(step_target(w, dt, wall)) }
    }
}

/// How the frames go on after a drain.
pub open spec fn frames_next(w: WorldView, fps: Flt, f: Frames, wall: Flt) -> (WorldView, Frames) {
    match f {
        Frames::Stepping { left, advance } => {
            let (v, a) = advance_next(w, advance);
            match a.stage {
                AdvanceStage::Over => (
                    v.with_frame(),
                    Frames::Ticking { left, tick: Tick::Draining { t: v.sched.offline_now } },
                ),
                AdvanceStage::Overrun => (v, Frames::Overrun { target: a.target }),
                _ => (v, Frames::Stepping { left, advance: a }),
            }
        },
        Frames::Ticking { left, tick } => {
            let (v, k) = tick_next(w, tick);
            match k {
                Tick::Settling(a) => match a.stage {
                    AdvanceStage::Over => if left == 0 {
                        (v, Frames::Over)
                    } else {
                        (v, frames_start(v, fps, (left - 1) as usize, wall))
                    },
                    AdvanceStage::Overrun => (v, Frames::Overrun { target: a.target }),
                    _ => (v, Frames::Ticking { left, tick: k }),
                },
                _ => (v, Frames::Ticking { left, tick: k }),
            }
        },
        _ => (w, f),
    }
}

/// How to wait, in real time, for the next wait that is due at `t`.
pub open spec fn await_event(w: WorldView, t: Flt, wall: Flt) -> (WorldView, LoopStep) {
    let now = w.sched.now(wall);
    if t.at_most(now) {
        (w.with_slice(), LoopStep::Drain)
    } else {
        let dt = t.minus(now).over(w.sched.rate).larger(Flt::zero());
        (w, LoopStep::Sleep(dt))
    }
}

/// What comes next after a drain, in a loop that ends when the host says.
pub open spec fn until_next(w: WorldView, done: bool, wall: Flt) -> (WorldView, LoopStep) {
    if done {
        (w, LoopStep::Done)
    } else {
        match w.sched.next_event() {
            Some(t) => await_event(w, t, wall),
            None => if w.sched.pending() {
                (w, LoopStep::Pause)
            } else {
                (w, LoopStep::Ask)
            },
        }
    }
}

/// The root task has completed, or there was none.
pub open spec fn root_over(w: WorldView, task: Option<u64>) -> bool {
    match task {
        Some(t) => !w.tasks.live.contains(t),
        None => true,
    }
}

/// What comes next after a drain, in a loop that ends when the root task has
/// completed, or when the root is cancelled and no task is ready.
pub open spec fn complete_next(w: WorldView, root: u64, task: Option<u64>, wall: Flt) -> (
    WorldView,
    LoopStep,
) {
    if root_over(w, task) || (w.ctxs[root].canceled && w.tasks.ready.len() == 0) {
        (w, LoopStep::Done)
    } else {
        match w.sched.next_event() {
            Some(t) => await_event(w, t, wall),
            None => (w, LoopStep::Pause),
        }
    }
}

/// A new engine's state.
pub open spec fn launched(mode: SchedulerMode, bpm: Flt, seed: Seq<char>, rate: Flt) -> WorldView {
    let w = WorldView::initial(mode);
    WorldView { sched: w.sched.with_rate(rate, Flt::zero()), ..w }.with_root(bpm, seed)
}

/// Tasks and waits, with a root context.
pub struct Engine {
    /// The shared state.
    pub world: World,
    /// The root.
    pub root_ctx: Ctx,
    /// The frames in a second.
    pub fps: Flt,
    /// The task that was queued first.
    pub root_task: Option<u64>,
}

impl Engine {
    /// The shared state is well-formed, and the root is there.
    pub open spec fn wf(&self) -> bool {
        self.root_ctx.alive(&self.world)
    }

    /// An engine at time 0. In real time the host takes the present as its
    /// wall-clock anchor.
    pub fn new(mode: SchedulerMode, config: EngineConfig) -> (r: Self)
        ensures
            r.wf(),
            r.world@ == launched(mode, config.bpm, config.seed@, config.rate),
            r.root_ctx.id == 0,
            r.fps == config.fps,
            r.root_task is None,
    {
        let mut world: World = World::new(mode);
        world.set_rate(config.rate, Flt::zero());
        let root_ctx: Ctx = Ctx::new_root(&mut world, config.bpm, config.seed.as_str());
        Engine { world, root_ctx, fps: config.fps, root_task: None }
    }

    /// Queues a task; the host gives it a future that starts from the root.
    /// The first one is the root task.
    pub fn spawn(&mut self) -> (r: Task)
        requires
            old(self).wf(),
            old(self).world@.tasks.next < u64::MAX,
        ensures
            final(self).wf(),
            final(self).root_ctx == old(self).root_ctx,
            final(self).fps == old(self).fps,
            final(self).root_task == Some(
                match old(self).root_task {
                    Some(t) => t,
                    None => old(self).world@.tasks.next,
                },
            ),
            final(self).world@ == (WorldView {
                tasks: old(self).world@.tasks.spawned(),
                ..old(self).world@
            }),
            r.id == old(self).world@.tasks.next,
    {
        let r: Task = self.world.spawn();
        if self.root_task.is_none() {
            self.root_task = Some(r.id);
        }
        r
    }

    /// Goes on, after a drain, with a loop in real time that ends when the
    /// host says.
    pub fn run_until(&mut self, done: bool, wall: Flt) -> (r: LoopStep)
        requires
            old(self).wf(),
        ensures
            final(self).wf(),
            final(self).root_ctx == old(self).root_ctx,
            final(self).fps == old(self).fps,
            final(self).root_task == old(self).root_task,
            final(self).world@ == until_next(old(self).world@, done, wall).0,
            r == until_next(old(self).world@, done, wall).1,
    {
        if done {
            return LoopStep::Done;
        }
        match self.world.peek_next_event_time() {
            Some(t) => self.await_next(t, wall),
            None => {
                if self.world.has_pending_waits() {
                    LoopStep::Pause
                } else {
                    LoopStep::Ask
                }
            },
        }
    }

    /// Goes on, after a drain, with a loop in real time that ends when the
    /// root task has completed, or when the root is cancelled and no task is
    /// ready.
    pub fn run_until_complete(&mut self, wall: Flt) -> (r: LoopStep)
        requires
            old(self).wf(),
        ensures
            final(self).wf(),
            final(self).root_ctx == old(self).root_ctx,
            final(self).fps == old(self).fps,
            final(self).root_task == old(self).root_task,
            final(self).world@ == complete_next(
                old(self).world@,
                old(self).root_ctx.id,
                old(self).root_task,
                wall,
            ).0,
            r == complete_next(
                old(self).world@,
                old(self).root_ctx.id,
                old(self).root_task,
                wall,
            ).1,
    {
        let over: bool = match self.root_task {
            Some(t) => !self.world.is_live(t),
            None => true,
        };
        if over || (self.root_ctx.is_canceled(&self.world) && !self.world.has_ready_tasks()) {
            return LoopStep::Done;
        }
        match self.world.peek_next_event_time() {
            Some(t) => self.await_next(t, wall),
            None => LoopStep::Pause,
        }
    }

    /// Lets the waits that are due at `t` come due, or says how long to sleep
    /// before that.
    fn await_next(&mut self, t: Flt, wall: Flt) -> (r: LoopStep)
        requires
            old(self).wf(),
        ensures
            final(self).wf(),
            final(self).root_ctx == old(self).root_ctx,
            final(self).fps == old(self).fps,
            final(self).root_task == old(self).root_task,
            final(self).world@ == await_event(old(self).world@, t, wall).0,
            r == await_event(old(self).world@, t, wall).1,
    {
        let now: Flt = self.world.now(wall);
        if t.le(now) {
            let _ = self.world.process_one_timeslice();
            LoopStep::Drain
        } else {
            let dt: Flt = t.difference(now).quotient(self.world.rate()).max(Flt::zero());
            LoopStep::Sleep(dt)
        }
    }

    /// Starts an advance, which the host goes on with by draining and
    /// `advance_step` in turn.
    pub fn advance_to(&self, target: Flt) -> (r: Advance)
        ensures
            r == advance_start(target),
    {
        Advance { target: target.max(Flt::zero()), processed: 0, stage: AdvanceStage::First }
    }

    /// Goes on with an advance after a drain.
    pub fn advance_step(&mut self, a: Advance) -> (r: Advance)
        requires
            old(self).wf(),
            a.processed <= MAX_TIMESLICES,
        ensures
            final(self).wf(),
            final(self).root_ctx == old(self).root_ctx,
            final(self).fps == old(self).fps,
            final(self).root_task == old(self).root_task,
            final(self).world@ == advance_next(old(self).world@, a).0,
            r == advance_next(old(self).world@, a).1,
            r.stage is Overrun || r.processed <= MAX_TIMESLICES,
    {
        match a.stage {
            AdvanceStage::First => self.next_slice(a),
            AdvanceStage::Slice => {
                let b: Advance = Advance { processed: a.processed + 1, ..a };
                if b.processed > MAX_TIMESLICES {
                    Advance { stage: AdvanceStage::Overrun, ..b }
                } else {
                    self.next_slice(b)
                }
            },
            AdvanceStage::Last => Advance { stage: AdvanceStage::Over, ..a },
            AdvanceStage::Over => a,
            AdvanceStage::Overrun => a,
        }
    }

    /// Takes the next slice of an advance.
    fn next_slice(&mut self, a: Advance) -> (r: Advance)
        requires
            old(self).wf(),
        ensures
            final(self).wf(),
            final(self).root_ctx == old(self).root_ctx,
            final(self).fps == old(self).fps,
            final(self).root_task == old(self).root_task,
            final(self).world@ == advance_on(old(self).world@, a).0,
            r == advance_on(old(self).world@, a).1,
    {
        match self.world.peek_next_event_time() {
            Some(t) => {
                if a.target.lt(t) {
                    self.world.set_offline_now(a.target);
                    Advance { stage: AdvanceStage::Last, ..a }
                } else {
                    self.world.set_offline_now(t);
                    let _ = self.world.process_one_timeslice();
                    Advance { stage: AdvanceStage::Slice, ..a }
                }
            },
            None => {
                self.world.set_offline_now(a.target);
                Advance { stage: AdvanceStage::Last, ..a }
            },
        }
    }

    /// Lets the waits for the next frame come due; the host goes on by
    /// draining and `tick_step` in turn.
    pub fn resolve_frame_tick(&mut self) -> (r: Tick)
        requires
            old(self).wf(),
        ensures
            final(self).wf(),
            final(self).root_ctx == old(self).root_ctx,
            final(self).fps == old(self).fps,
            final(self).root_task == old(self).root_task,
            final(self).world@ == old(self).world@.with_frame(),
            r == (Tick::Draining { t: old(self).world@.sched.offline_now }),
    {
        let t: Flt = self.world.offline_time();
        let _ = self.world.resolve_all_frame_waiters();
        Tick::Draining { t }
    }

    /// Goes on with a tick after a drain.
    pub fn tick_step(&mut self, k: Tick) -> (r: Tick)
        requires
            old(self).wf(),
            k matches Tick::Settling(a) ==> a.processed <= MAX_TIMESLICES,
        ensures
            final(self).wf(),
            final(self).root_ctx == old(self).root_ctx,
            final(self).fps == old(self).fps,
            final(self).root_task == old(self).root_task,
            final(self).world@ == tick_next(old(self).world@, k).0,
            r == tick_next(old(self).world@, k).1,
            r matches Tick::Settling(a) ==> a.stage is Overrun || a.processed <= MAX_TIMESLICES,
    {
        match k {
            Tick::Draining { t } => Tick::Settling(self.advance_to(t)),
            Tick::Settling(a) => Tick::Settling(self.advance_step(a)),
        }
    }

    /// Starts a step of `dt` seconds; negative, infinite and NaN count as
    /// none.
    pub fn step_sec(&self, dt: Flt, wall: Flt) -> (r: Advance)
        ensures
            r == advance_start(step_target(self.world@, dt, wall)),
    {
        let target: Flt = self.world.now(wall).sum(clamp_forward(dt));
        self.advance_to(target)
    }

    /// Starts one frame.
    pub fn step_frame(&self, wall: Flt) -> (r: Frames)
        ensures
            r == frames_start(self.world@, self.fps, 1, wall),
    {
        self.step_frames(1, wall)
    }

    /// Starts so many frames; the host goes on by draining and `frames_step`
    /// in turn.
    pub fn step_frames(&self, n: usize, wall: Flt) -> (r: Frames)
        ensures
            r == frames_start(self.world@, self.fps, n, wall),
    {
        if n == 0 {
            return Frames::Over;
        }
        let dt: Flt = Flt::one().quotient(self.fps);
        Frames::Stepping { left: n, advance: self.step_sec(dt, wall) }
    }

    /// Goes on with the frames after a drain.
    pub fn frames_step(&mut self, f: Frames, wall: Flt) -> (r: Frames)
        requires
            old(self).wf(),
            within_slices(f),
        ensures
            final(self).wf(),
            final(self).root_ctx == old(self).root_ctx,
            final(self).fps == old(self).fps,
            final(self).root_task == old(self).root_task,
            final(self).world@ == frames_next(old(self).world@, old(self).fps, f, wall).0,
            r == frames_next(old(self).world@, old(self).fps, f, wall).1,
            within_slices(r),
    {
        match f {
            Frames::Stepping { left, advance } => {
                let a: Advance = self.advance_step(advance);
                match a.stage {
                    AdvanceStage::Over => Frames::Ticking {
                        left,
                        tick: self.resolve_frame_tick(),
                    },
                    AdvanceStage::Overrun => Frames::Overrun { target: a.target },
                    _ => Frames::Stepping { left, advance: a },
                }
            },
            Frames::Ticking { left, tick } => {
                let k: Tick = self.tick_step(tick);
                match k {
                    Tick::Settling(a) => match a.stage {
                        AdvanceStage::Over => {
                            if left == 0 {
                                Frames::Over
                            } else {
                                self.step_frames(left - 1, wall)
                            }
                        },
                        AdvanceStage::Overrun => Frames::Overrun { target: a.target },
                        _ => Frames::Ticking { left, tick: k },
                    },
                    _ => Frames::Ticking { left, tick: k },
                }
            },
            Frames::Over => f,
            Frames::Overrun { .. } => f,
        }
    }
}

/// No advance among the frames has taken too many slices.
pub open spec fn within_slices(f: Frames) -> bool {
    match f {
        Frames::Stepping { advance, .. } => advance.processed <= MAX_TIMESLICES,
        Frames::Ticking { tick, .. } => tick matches Tick::Settling(a) ==> a.processed
            <= MAX_TIMESLICES,
        _ => true,
    }
}

/// Runs one task in steps.
pub struct OfflineRunner {
    /// The engine.
    pub engine: Engine,
}

impl OfflineRunner {
    /// An engine with one task queued, which the host gives a future.
    pub fn new(config: EngineConfig) -> (r: Self)
        ensures
            r.engine.wf(),
            r.engine.world@ == one_task(
                launched(SchedulerMode::Offline, config.bpm, config.seed@, config.rate),
            ),
            r.engine.root_ctx.id == 0,
            r.engine.fps == config.fps,
            r.engine.root_task == Some(0u64),
    {
        let mut engine: Engine = Engine::new(SchedulerMode::Offline, config);
        let _ = engine.spawn();
        OfflineRunner { engine }
    }

    /// The root.
    pub fn ctx(&self) -> (r: Ctx)
        ensures
            r == self.engine.root_ctx,
    {
        self.engine.root_ctx
    }

    /// The waits.
    pub fn scheduler(&self) -> (r: &TimeScheduler)
        ensures
            r@ == self.engine.world@.sched,
    {
        self.engine.world.scheduler()
    }

    /// The logical time.
    pub fn now(&self) -> (r: Flt)
        ensures
            r == self.engine.world@.sched.now(Flt::zero()),
    {
        self.engine.world.now(Flt::zero())
    }

    /// Starts a step of `dt` seconds.
    pub fn step_sec(&self, dt: Flt) -> (r: Advance)
        ensures
            r == advance_start(step_target(self.engine.world@, dt, Flt::zero())),
    {
        self.engine.step_sec(dt, Flt::zero())
    }

    /// Starts one frame.
    pub fn step_frame(&self) -> (r: Frames)
        ensures
            r == frames_start(self.engine.world@, self.engine.fps, 1, Flt::zero()),
    {
        self.engine.step_frame(Flt::zero())
    }

    /// Starts so many frames.
    pub fn step_frames(&self, n: usize) -> (r: Frames)
        ensures
            r == frames_start(self.engine.world@, self.engine.fps, n, Flt::zero()),
    {
        self.engine.step_frames(n, Flt::zero())
    }
}

/// With one more task queued.
pub open spec fn one_task(w: WorldView) -> WorldView {
    WorldView { tasks: w.tasks.spawned(), ..w }
}

/// Runs one task in real time.
pub struct RealtimeRunner {
    /// The engine.
    pub engine: Engine,
}

impl RealtimeRunner {
    /// An engine with one task queued, which the host gives a future.
    pub fn new(config: EngineConfig) -> (r: Self)
        ensures
            r.engine.wf(),
            r.engine.world@ == one_task(
                launched(SchedulerMode::Realtime, config.bpm, config.seed@, config.rate),
            ),
            r.engine.root_ctx.id == 0,
            r.engine.fps == config.fps,
            r.engine.root_task == Some(0u64),
    {
        let mut engine: Engine = Engine::new(SchedulerMode::Realtime, config);
        let _ = engine.spawn();
        RealtimeRunner { engine }
    }

    /// The root.
    pub fn ctx(&self) -> (r: Ctx)
        ensures
            r == self.engine.root_ctx,
    {
        self.engine.root_ctx
    }

    /// Goes on, after a drain, until the root task has completed.
    pub fn run_until_complete(&mut self, wall: Flt) -> (r: LoopStep)
        requires
            old(self).engine.wf(),
        ensures
            final(self).engine.wf(),
            final(self).engine.root_ctx == old(self).engine.root_ctx,
            final(self).engine.fps == old(self).engine.fps,
            final(self).engine.root_task == old(self).engine.root_task,
            final(self).engine.world@ == complete_next(
                old(self).engine.world@,
                old(self).engine.root_ctx.id,
                old(self).engine.root_task,
                wall,
            ).0,
            r == complete_next(
                old(self).engine.world@,
                old(self).engine.root_ctx.id,
                old(self).engine.root_task,
                wall,
            ).1,
    {
        self.engine.run_until_complete(wall)
    }

    /// Goes on, after a drain, until the host says so.
    pub fn run_until(&mut self, done: bool, wall: Flt) -> (r: LoopStep)
        requires
            old(self).engine.wf(),
        ensures
            final(self).engine.wf(),
            final(self).engine.root_ctx == old(self).engine.root_ctx,
            final(self).engine.fps == old(self).engine.fps,
            final(self).engine.root_task == old(self).engine.root_task,
            final(self).engine.world@ == until_next(old(self).engine.world@, done, wall).0,
            r == until_next(old(self).engine.world@, done, wall).1,
    {
        self.engine.run_until(done, wall)
    }
}

/// Runs one task in steps, from the default configuration.
pub fn launch_offline() -> (r: OfflineRunner)
    ensures
        r.engine.wf(),
        r.engine.world@ == one_task(
            launched(SchedulerMode::Offline, Flt::sixty(), "default"@, Flt::one()),
        ),
        r.engine.root_ctx.id == 0,
        r.engine.fps == Flt::sixty(),
        r.engine.root_task == Some(0u64),
{
    OfflineRunner::new(EngineConfig::default())
}

/// Runs one task in steps.
pub fn launch_offline_with_config(config: EngineConfig) -> (r: OfflineRunner)
    ensures
        r.engine.wf(),
        r.engine.world@ == one_task(
            launched(SchedulerMode::Offline, config.bpm, config.seed@, config.rate),
        ),
        r.engine.root_ctx.id == 0,
        r.engine.fps == config.fps,
        r.engine.root_task == Some(0u64),
{
    OfflineRunner::new(config)
}

/// Runs one task in real time, from the default configuration.
pub fn launch_realtime() -> (r: RealtimeRunner)
    ensures
        r.engine.wf(),
        r.engine.world@ == one_task(
            launched(SchedulerMode::Realtime, Flt::sixty(), "default"@, Flt::one()),
        ),
        r.engine.root_ctx.id == 0,
        r.engine.fps == Flt::sixty(),
        r.engine.root_task == Some(0u64),
{
    RealtimeRunner::new(EngineConfig::default())
}

/// Runs one task in real time.
pub fn launch_realtime_with_config(config: EngineConfig) -> (r: RealtimeRunner)
    ensures
        r.engine.wf(),
        r.engine.world@ == one_task(
            launched(SchedulerMode::Realtime, config.bpm, config.seed@, config.rate),
        ),
        r.engine.root_ctx.id == 0,
        r.engine.fps == config.fps,
        r.engine.root_task == Some(0u64),
{
    RealtimeRunner::new(config)
}

} // verus!

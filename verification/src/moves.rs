//! What tasks and the host do to the shared state.
//!
//! None of it looks at the clock. A wait for the next frame ends at the time
//! that the clock shows, and is not among it.
use vstd::prelude::*;

use crate::barrier::BarrierWaitView;
use crate::context;
use crate::context::{BeatWaitFuture, BranchOptions, TimeWaitFuture, WaitPhase};
use crate::executor;
use crate::executor::Run;
use crate::flt::Flt;
use crate::world::WorldView;

verus! {

/// What is done to the tasks.
pub enum TaskMove {
    /// Queues a new task.
    Spawn,
    /// Wakes a task.
    Wake {
        /// The task.
        task: u64,
    },
    /// Goes on with a run of the tasks.
    Go {
        /// How far the run has come.
        run: Run,
        /// The task that was polled has completed.
        completed: bool,
    },
}

/// What is done to the waits.
pub enum WaitMove {
    /// Lets the waits that are due first come due.
    Slice,
    /// Polls a wait for a time.
    PollTime {
        /// The wait.
        time_wait: TimeWaitFuture,
        /// The task to wake.
        waker: u64,
    },
    /// Polls a wait for a beat.
    PollBeat {
        /// The wait.
        beat_wait: BeatWaitFuture,
        /// The task to wake.
        waker: u64,
    },
}

/// What is done to the trees of contexts.
pub enum TreeMove {
    /// Adds a root.
    Root {
        /// Its tempo.
        bpm: Flt,
        /// Its seed.
        seed: Seq<char>,
    },
    /// Adds a child that runs beside its parent.
    Branch {
        /// The parent.
        ctx: u64,
        /// How it relates to its parent.
        opts: BranchOptions,
    },
    /// Adds a child that its parent waits for.
    BranchWait {
        /// The parent.
        ctx: u64,
        /// How it relates to its parent.
        opts: BranchOptions,
    },
    /// Notes that a child is over.
    Finish {
        /// The parent.
        parent: u64,
        /// The child.
        child: u64,
    },
    /// Notes that a child that its parent waits for is over.
    FinishWait {
        /// The parent.
        parent: u64,
        /// The child.
        child: u64,
    },
    /// Polls for the end of a child.
    PollBranch {
        /// The parent.
        parent: u64,
        /// The child.
        child: u64,
        /// The task to wake.
        waker: u64,
    },
    /// Cancels a context and all that descend from it.
    Cancel {
        /// The context.
        ctx: u64,
    },
    /// Forgets a context.
    Release {
        /// The context.
        ctx: u64,
    },
}

/// What is done to the barriers.
pub enum BarrierMove {
    /// Starts a cycle of a barrier.
    Start {
        /// Who starts it.
        ctx: u64,
        /// The name of the barrier.
        key: Seq<char>,
    },
    /// Resolves a cycle of a barrier.
    Resolve {
        /// Who resolves it.
        ctx: u64,
        /// The name of the barrier.
        key: Seq<char>,
    },
    /// Comes to a barrier.
    Reach {
        /// Who comes.
        ctx: u64,
        /// The name of the barrier.
        key: Seq<char>,
    },
    /// Polls a wait for a barrier.
    Poll {
        /// The wait.
        wait: BarrierWaitView,
        /// The task to wake.
        waker: u64,
    },
    /// Drops all barriers.
    Clear,
}

/// What is done to one context.
pub enum OwnMove {
    /// Moves its time.
    SetTime {
        /// The context.
        ctx: u64,
        /// Its time.
        t: Flt,
    },
    /// Moves up the latest time that any wait has reached.
    MoveUp {
        /// The time.
        t: Flt,
    },
    /// Sets its tempo.
    SetBpm {
        /// The context.
        ctx: u64,
        /// The tempo.
        bpm: Flt,
    },
    /// Ramps its tempo.
    Ramp {
        /// The context.
        ctx: u64,
        /// The tempo to reach.
        bpm: Flt,
        /// In so many seconds.
        dur: Flt,
    },
    /// Draws from its generator.
    Draw {
        /// The context.
        ctx: u64,
    },
    /// Adds a cancel handler.
    Handle {
        /// The context.
        ctx: u64,
    },
    /// Takes a cancel handler back.
    Unhandle {
        /// The context.
        ctx: u64,
        /// The number of the handler.
        handler: u64,
    },
    /// Takes the cancel handlers that are to run.
    TakeFired,
}

/// What a task or the host does to the shared state.
pub enum Move {
    /// To the tasks.
    Task(TaskMove),
    /// To the waits.
    Wait(WaitMove),
    /// To the trees of contexts.
    Tree(TreeMove),
    /// To the barriers.
    Barrier(BarrierMove),
    /// To one context.
    Own(OwnMove),
}

/// What a move gives.
pub enum Reply {
    /// Nothing.
    Nothing,
    /// How far a run has come.
    Run(Run),
    /// The waits that came due, in order.
    Due(Seq<u64>),
    /// How far a wait has come, and what its poll gave.
    Poll(WaitPhase, Option<Result<(), Seq<char>>>),
    /// What a poll for the end of a child gave.
    Joined(Option<Result<(), Seq<char>>>),
    /// A barrier was resolved before.
    Passed(bool),
    /// The cancel handlers that are to run, in order.
    Fired(Seq<u64>),
    /// The number that was drawn.
    Drawn(Flt),
}

impl WorldView {
    /// After a move of the tasks, and what it gives.
    #[verifier::opaque]
    pub open spec fn after_task(self, m: TaskMove) -> (WorldView, Reply) {
        match m {
            TaskMove::Spawn => (
                WorldView { tasks: self.tasks.spawned(), ..self },
                Reply::Nothing,
            ),
            TaskMove::Wake { task } => (self.with_woken(Some(task)), Reply::Nothing),
            TaskMove::Go { run, completed } => {
                let (tasks, r) = executor::run_next(self.tasks, run, completed);
                (WorldView { tasks, ..self }, Reply::Run(r))
            },
        }
    }

    /// After a move of the waits, and what it gives.
    #[verifier::opaque]
    pub open spec fn after_wait(self, m: WaitMove) -> (WorldView, Reply) {
        match m {
            WaitMove::Slice => (
                self.with_slice(),
                Reply::Due(self.sched.sliced(self.tempos.maps).1),
            ),
            WaitMove::PollTime { time_wait, waker } => {
                let (w, p, r) = self.time_polled(time_wait, waker);
                (w, Reply::Poll(p, r))
            },
            WaitMove::PollBeat { beat_wait, waker } => {
                let (w, p, r) = self.beat_polled(beat_wait, waker);
                (w, Reply::Poll(p, r))
            },
        }
    }

    /// After a move of the trees, and what it gives.
    #[verifier::opaque]
    pub open spec fn after_tree(self, m: TreeMove) -> (WorldView, Reply) {
        match m {
            TreeMove::Root { bpm, seed } => (self.with_root(bpm, seed), Reply::Nothing),
            TreeMove::Branch { ctx, opts } => (
                self.with_child(ctx, self.sched.most_recent_desc_time, opts, None),
                Reply::Nothing,
            ),
            TreeMove::BranchWait { ctx, opts } => (
                self.with_child(
                    ctx,
                    self.ctxs[ctx].time,
                    opts,
                    Some(context::unfinished()),
                ),
                Reply::Nothing,
            ),
            TreeMove::Finish { parent, child } => (
                self.with_child_finished(parent, child),
                Reply::Nothing,
            ),
            TreeMove::FinishWait { parent, child } => (
                self.with_waited_child_finished(parent, child),
                Reply::Nothing,
            ),
            TreeMove::PollBranch { parent, child, waker } => {
                let (w, r) = self.branch_polled(parent, child, waker);
                (w, Reply::Joined(r))
            },
            TreeMove::Cancel { ctx } => (self.cancelled(ctx), Reply::Nothing),
            TreeMove::Release { ctx } => (
                WorldView { ctxs: self.ctxs.remove(ctx), ..self },
                Reply::Nothing,
            ),
        }
    }

    /// After a move of the barriers, and what it gives.
    #[verifier::opaque]
    pub open spec fn after_barrier(self, m: BarrierMove) -> (WorldView, Reply) {
        match m {
            BarrierMove::Start { ctx, key } => (self.barrier_started(ctx, key), Reply::Nothing),
            BarrierMove::Resolve { ctx, key } => (
                self.barrier_resolved(ctx, key),
                Reply::Nothing,
            ),
            BarrierMove::Reach { ctx, key } => (
                self.barrier_reached(ctx, key),
                Reply::Passed(self.barrier_passed(ctx, key)),
            ),
            BarrierMove::Poll { wait, waker } => {
                let (w, p, r) = self.barrier_polled(wait, waker);
                (w, Reply::Poll(p, r))
            },
            BarrierMove::Clear => (
                WorldView { barriers: Seq::empty(), ..self },
                Reply::Nothing,
            ),
        }
    }

    /// After a move of one context, and what it gives.
    #[verifier::opaque]
    pub open spec fn after_own(self, m: OwnMove) -> (WorldView, Reply) {
        match m {
            OwnMove::SetTime { ctx, t } => (self.with_time(ctx, t), Reply::Nothing),
            OwnMove::MoveUp { t } => (self.with_reached(t), Reply::Nothing),
            OwnMove::SetBpm { ctx, bpm } => (self.with_bpm(ctx, bpm), Reply::Nothing),
            OwnMove::Ramp { ctx, bpm, dur } => (self.with_ramp(ctx, bpm, dur), Reply::Nothing),
            OwnMove::Draw { ctx } => {
                let (w, x) = self.drawn(ctx);
                (w, Reply::Drawn(x))
            },
            OwnMove::Handle { ctx } => (self.with_handler(ctx), Reply::Nothing),
            OwnMove::Unhandle { ctx, handler } => (
                self.with_handler_dropped(ctx, handler),
                Reply::Nothing,
            ),
            OwnMove::TakeFired => (
                WorldView { fired: Seq::empty(), ..self },
                Reply::Fired(self.fired),
            ),
        }
    }

    /// After a move, and what it gives.
    pub open spec fn moved(self, m: Move) -> (WorldView, Reply) {
        match m {
            Move::Task(x) => self.after_task(x),
            Move::Wait(x) => self.after_wait(x),
            Move::Tree(x) => self.after_tree(x),
            Move::Barrier(x) => self.after_barrier(x),
            Move::Own(x) => self.after_own(x),
        }
    }

    /// After a move.
    pub open spec fn after(self, m: Move) -> WorldView {
        self.moved(m).0
    }

    /// What a move gives.
    pub open spec fn reply(self, m: Move) -> Reply {
        self.moved(m).1
    }
}

/// The move that takes a slice of time.
pub open spec fn slice() -> Move {
    Move::Wait(WaitMove::Slice)
}

/// The contexts that a move speaks of are there, and numbers have not run out.
pub open spec fn allowed(w: WorldView, m: Move) -> bool {
    match m {
        Move::Wait(WaitMove::PollTime { time_wait, .. }) => w.ctxs.contains_key(
            time_wait.ctx.id,
        ),
        Move::Wait(WaitMove::PollBeat { beat_wait, .. }) => w.ctxs.contains_key(
            beat_wait.ctx.id,
        ),
        Move::Tree(TreeMove::Branch { ctx, .. }) => w.ctxs.contains_key(ctx) && w.has_room(ctx),
        Move::Tree(TreeMove::BranchWait { ctx, .. }) => w.ctxs.contains_key(ctx) && w.has_room(
            ctx,
        ),
        Move::Tree(TreeMove::FinishWait { child, .. }) => w.ctxs.contains_key(child),
        Move::Tree(TreeMove::PollBranch { parent, child, .. }) => w.ctxs.contains_key(parent)
            && w.ctxs.contains_key(child),
        Move::Barrier(BarrierMove::Start { ctx, .. }) => w.ctxs.contains_key(ctx),
        Move::Barrier(BarrierMove::Resolve { ctx, .. }) => w.ctxs.contains_key(ctx),
        Move::Barrier(BarrierMove::Reach { ctx, .. }) => w.ctxs.contains_key(ctx),
        Move::Barrier(BarrierMove::Poll { wait, .. }) => w.ctxs.contains_key(wait.ctx.id),
        Move::Own(OwnMove::SetTime { ctx, .. }) => w.ctxs.contains_key(ctx),
        Move::Own(OwnMove::Handle { ctx }) => w.ctxs.contains_key(ctx),
        _ => true,
    }
}

} // verus!

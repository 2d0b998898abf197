//! Contexts, their waits and their branches, one call at a time.
use rust_timing_lib::barrier;
use rust_timing_lib::context::{
    clamp_forward, BranchOptions, Ctx, RngMode, TempoMode, WaitFuture, WaitPoll,
};
use rust_timing_lib::executor::{Executor, Run};
use rust_timing_lib::flt::Flt;
use rust_timing_lib::scheduler::SchedulerMode;
use rust_timing_lib::world::World;

fn f(x: f64) -> Flt {
    Flt::from_bits(x.to_bits())
}

fn g(x: Flt) -> f64 {
    f64::from_bits(x.to_bits())
}

fn root(w: &mut World, bpm: f64, seed: &str) -> Ctx {
    Ctx::new_root(w, f(bpm), seed)
}

#[test]
fn test_ctx_creation() {
    let mut w = World::new(SchedulerMode::Offline);
    let ctx = root(&mut w, 120.0, "test_seed");

    assert_eq!(g(ctx.time(&w)), 0.0);
    assert!(!ctx.is_canceled(&w));
}

#[test]
fn test_ctx_cancel() {
    let mut w = World::new(SchedulerMode::Offline);
    let ctx = root(&mut w, 120.0, "test_seed");

    assert!(!ctx.is_canceled(&w));
    ctx.cancel(&mut w);
    assert!(ctx.is_canceled(&w));
}

#[test]
fn test_random_deterministic() {
    let mut w = World::new(SchedulerMode::Offline);
    let ctx1 = root(&mut w, 120.0, "same_seed");
    let ctx2 = root(&mut w, 120.0, "same_seed");

    for _ in 0..100 {
        assert_eq!(g(ctx1.random(&mut w)), g(ctx2.random(&mut w)));
    }
}

#[test]
fn test_barrier_basic() {
    let mut w = World::new(SchedulerMode::Offline);
    barrier::clear_all_barriers(&mut w);

    let ctx = root(&mut w, 120.0, "test");

    barrier::start_barrier(&mut w, "test_barrier", &ctx);

    // Simulate some time passing
    ctx.set_time(&mut w, f(1.0));

    barrier::resolve_barrier(&mut w, "test_barrier", &ctx);

    // Check that last_resolved_time is updated
    let last = barrier::last_resolved(&w, "test_barrier", &ctx).unwrap();
    assert!((g(last) - 1.0).abs() < 1e-10);
}

fn is_ready(p: WaitPoll) -> bool {
    matches!(p, WaitPoll::Ready(Ok(())))
}

fn is_cancelled(p: WaitPoll) -> bool {
    matches!(p, WaitPoll::Ready(Err(_)))
}

fn is_pending(p: WaitPoll) -> bool {
    matches!(p, WaitPoll::Pending)
}

fn is_time(p: &WaitFuture) -> bool {
    matches!(p, WaitFuture::Time(_))
}

#[test]
fn forward_clamp_drops_the_odd() {
    for bad in [0.0, -1.0, f64::NAN, f64::INFINITY] {
        assert_eq!(g(clamp_forward(f(bad))), 0.0);
    }
    assert_eq!(g(clamp_forward(f(0.75))), 0.75);
}

#[test]
fn time_wait_is_woken_at_its_time() {
    let mut w = World::new(SchedulerMode::Offline);
    let c = root(&mut w, 60.0, "a");
    let task = w.spawn();
    let mut wait = c.wait_sec(&w, f(1.5));
    assert!(is_pending(wait.poll(&mut w, task.id)));
    assert_eq!(w.peek_next_event_time(), Some(f(1.5)));
    w.process_one_timeslice();
    assert!(is_ready(wait.poll(&mut w, task.id)));
    assert_eq!(g(c.time(&w)), 1.5);
    assert_eq!(g(w.most_recent()), 1.5);
}

#[test]
fn late_wakes_do_not_add_up() {
    let mut w = World::new(SchedulerMode::Offline);
    let c = root(&mut w, 60.0, "a");
    let task = w.spawn();
    for step in 1..5 {
        let mut wait = c.wait_sec(&w, f(0.25));
        assert!(is_pending(wait.poll(&mut w, task.id)));
        w.process_one_timeslice();
        w.set_offline_now(f(step as f64));
        assert!(is_ready(wait.poll(&mut w, task.id)));
        assert_eq!(g(c.time(&w)), 0.25 * step as f64);
    }
}

#[test]
fn beat_wait_lands_on_the_beat() {
    let mut w = World::new(SchedulerMode::Offline);
    let c = root(&mut w, 120.0, "a");
    let task = w.spawn();
    for step in 1..5 {
        let mut wait = c.wait(&w, f(1.0));
        assert!(!is_time(&wait));
        assert!(is_pending(wait.poll(&mut w, task.id)));
        w.process_one_timeslice();
        w.set_offline_now(f(3.0 * step as f64));
        assert!(is_ready(wait.poll(&mut w, task.id)));
        assert_eq!(g(c.time(&w)), 0.5 * step as f64);
    }
}

#[test]
fn wait_of_no_beats_is_a_wait_for_now() {
    let mut w = World::new(SchedulerMode::Offline);
    let c = root(&mut w, 60.0, "a");
    c.set_time(&mut w, f(2.0));
    assert!(is_time(&c.wait(&w, f(0.0))));
    assert!(is_time(&c.wait(&w, f(-3.0))));
    assert!(is_time(&c.wait(&w, f(f64::NAN))));
    assert!(!is_time(&c.wait(&w, f(1.0))));
}

#[test]
fn cancelled_wait_fails_with_its_message() {
    let mut w = World::new(SchedulerMode::Offline);
    let c = root(&mut w, 60.0, "a");
    let task = w.spawn();
    let mut wait = c.wait_sec(&w, f(1.0));
    assert!(is_pending(wait.poll(&mut w, task.id)));
    c.cancel(&mut w);
    assert!(!w.has_pending_waits());
    match wait.poll(&mut w, task.id) {
        WaitPoll::Ready(Err(e)) => assert_eq!(e.text(), "cancelled"),
        _ => panic!("the wait should fail"),
    }
    let mut later = c.wait_sec(&w, f(1.0));
    match later.poll(&mut w, task.id) {
        WaitPoll::Ready(Err(e)) => assert_eq!(e.message, "context cancelled"),
        _ => panic!("a wait in a cancelled context should fail"),
    }
}

#[test]
fn frame_wait_counts_from_the_clock() {
    let mut w = World::new(SchedulerMode::Offline);
    let c = root(&mut w, 60.0, "a");
    let task = w.spawn();
    let mut wait = c.wait_frame();
    assert!(is_pending(wait.poll(&mut w, task.id, f(0.0))));
    w.set_offline_now(f(0.25));
    assert_eq!(w.resolve_all_frame_waiters().len(), 1);
    assert!(is_ready(wait.poll(&mut w, task.id, f(0.0))));
    assert_eq!(g(c.time(&w)), 0.25);
}

#[test]
fn branch_starts_at_the_latest_time() {
    let mut w = World::new(SchedulerMode::Offline);
    let c = root(&mut w, 60.0, "a");
    // It starts at the latest time that any wait has reached.
    c.update_most_recent_desc_time(&mut w, f(3.0));
    let b = c.branch(&mut w, BranchOptions::default());
    let child = b.ctx;
    assert_eq!(g(child.time(&w)), 3.0);
    assert_eq!(g(child.prog_time(&w)), 0.0);
    assert_eq!(g(child.prog_beats(&w)), 0.0);
    assert_eq!(g(child.beats(&w)), 3.0);
    child.set_bpm(&mut w, f(120.0));
    c.set_time(&mut w, f(3.0));
    assert_eq!(g(c.bpm(&w)), 120.0);
}

#[test]
fn cloned_tempo_stays_apart() {
    let mut w = World::new(SchedulerMode::Offline);
    let c = root(&mut w, 60.0, "a");
    c.set_time(&mut w, f(1.0));
    c.update_most_recent_desc_time(&mut w, f(1.0));
    let b = c.branch(&mut w, BranchOptions { tempo: TempoMode::Cloned, ..BranchOptions::default() });
    let child = b.ctx;
    child.set_bpm(&mut w, f(120.0));
    assert_eq!(g(child.bpm(&w)), 120.0);
    assert_eq!(g(c.bpm(&w)), 60.0);
    child.ramp_bpm_to(&mut w, f(240.0), f(2.0));
    child.set_time(&mut w, f(2.0));
    assert_eq!(g(child.bpm(&w)), 180.0);
    assert_eq!(g(c.bpm(&w)), 60.0);
}

#[test]
fn generators_fork_unless_shared() {
    let mut w = World::new(SchedulerMode::Offline);
    let a = root(&mut w, 60.0, "s");
    let b = root(&mut w, 60.0, "s");
    let forked = a.branch(&mut w, BranchOptions::default());
    let shared = b.branch(&mut w, BranchOptions { rng: RngMode::Shared, ..BranchOptions::default() });
    let fork = forked.ctx;
    let share = shared.ctx;
    // A fork does not move its parent's stream, a shared draw does.
    fork.random(&mut w);
    share.random(&mut w);
    let x = g(a.random(&mut w));
    let y = g(b.random(&mut w));
    assert_ne!(x, y);
    assert_eq!(g(a.random(&mut w)), y);
}

#[test]
fn two_forks_draw_differently() {
    let mut w = World::new(SchedulerMode::Offline);
    let a = root(&mut w, 60.0, "s");
    let p = a.branch(&mut w, BranchOptions::default()).ctx;
    let q = a.branch(&mut w, BranchOptions::default()).ctx;
    assert_ne!(g(p.random(&mut w)), g(q.random(&mut w)));
}

#[test]
fn cancel_reaches_all_below_and_nothing_else() {
    let mut w = World::new(SchedulerMode::Offline);
    let a = root(&mut w, 60.0, "s");
    let b = a.branch(&mut w, BranchOptions::default()).ctx;
    let c = b.branch(&mut w, BranchOptions::default()).ctx;
    let d = a.branch(&mut w, BranchOptions::default()).ctx;
    b.cancel(&mut w);
    b.cancel(&mut w);
    assert!(b.is_canceled(&w) && c.is_canceled(&w));
    assert!(!a.is_canceled(&w) && !d.is_canceled(&w));
}

#[test]
fn joined_branch_brings_the_parent_along() {
    let mut w = World::new(SchedulerMode::Offline);
    let a = root(&mut w, 60.0, "s");
    let task = w.spawn();
    let mut join = a.branch_wait(&mut w, BranchOptions::default());
    assert!(is_pending(join.poll(&mut w, task.id)));
    let child = join.child;
    child.set_time(&mut w, f(2.5));
    child.finish_branch_wait(&mut w, a);
    assert!(is_ready(join.poll(&mut w, task.id)));
    assert_eq!(g(a.time(&w)), 2.5);
}

#[test]
fn unjoined_branch_leaves_the_parent() {
    let mut w = World::new(SchedulerMode::Offline);
    let a = root(&mut w, 60.0, "s");
    let b = a.branch(&mut w, BranchOptions::default());
    let child = b.ctx;
    child.set_time(&mut w, f(2.5));
    child.finish_branch(&mut w, a);
    assert_eq!(g(a.time(&w)), 0.0);
}

#[test]
fn handlers_fire_once_on_cancel() {
    let mut w = World::new(SchedulerMode::Offline);
    let a = root(&mut w, 60.0, "s");
    let first = a.handle_cancel(&mut w);
    let second = a.handle_cancel(&mut w);
    first.unsubscribe(&mut w);
    assert!(w.take_fired().is_empty());
    a.cancel(&mut w);
    a.cancel(&mut w);
    assert_eq!(w.take_fired(), vec![second.handler]);
    assert!(w.take_fired().is_empty());
}

#[test]
fn handlers_below_fire_with_an_ancestor() {
    let mut w = World::new(SchedulerMode::Offline);
    let a = root(&mut w, 60.0, "s");
    let b = a.branch(&mut w, BranchOptions::default());
    let c = b.ctx.branch(&mut w, BranchOptions::default());
    let other = root(&mut w, 60.0, "t");
    let on_c = c.handle_cancel(&mut w);
    let on_a = a.handle_cancel(&mut w);
    let on_b = b.handle_cancel(&mut w);
    let _ = other.handle_cancel(&mut w);
    a.cancel(&mut w);
    assert_eq!(w.take_fired(), vec![on_a.handler, on_b.handler, on_c.handler]);
    let late = b.handle_cancel(&mut w);
    assert_eq!(w.take_fired(), vec![late.handler]);
}

#[test]
fn released_context_is_gone() {
    let mut w = World::new(SchedulerMode::Offline);
    let a = root(&mut w, 60.0, "s");
    let b = root(&mut w, 60.0, "t");
    assert!(w.has(a.id));
    w.release(a.id);
    assert!(!w.has(a.id) && w.has(b.id));
}

#[test]
fn barrier_holds_until_it_is_resolved() {
    let mut w = World::new(SchedulerMode::Offline);
    let a = root(&mut w, 60.0, "s");
    let b = a.branch(&mut w, BranchOptions::default()).ctx;
    let task = w.spawn();
    barrier::start_barrier(&mut w, "k", &a);
    let mut wait = barrier::await_barrier(&mut w, "k", &b);
    assert!(is_pending(wait.poll(&mut w, task.id)));
    a.set_time(&mut w, f(4.0));
    barrier::resolve_barrier(&mut w, "k", &a);
    assert!(is_ready(wait.poll(&mut w, task.id)));
    assert_eq!(g(b.time(&w)), 4.0);
    // Awaited again before its next start, it does not hold.
    let mut again = barrier::await_barrier(&mut w, "k", &b);
    assert!(is_ready(again.poll(&mut w, task.id)));
}

#[test]
fn barrier_names_are_per_tree() {
    let mut w = World::new(SchedulerMode::Offline);
    let a = root(&mut w, 60.0, "s");
    let b = root(&mut w, 60.0, "s");
    barrier::start_barrier(&mut w, "k", &a);
    assert!(barrier::last_resolved(&w, "k", &a).is_some());
    assert!(barrier::last_resolved(&w, "k", &b).is_none());
    barrier::clear_all_barriers(&mut w);
    assert!(barrier::last_resolved(&w, "k", &a).is_none());
}

#[test]
fn barrier_fails_for_a_cancelled_context() {
    let mut w = World::new(SchedulerMode::Offline);
    let a = root(&mut w, 60.0, "s");
    let b = a.branch(&mut w, BranchOptions::default()).ctx;
    let task = w.spawn();
    barrier::start_barrier(&mut w, "k", &a);
    let mut wait = barrier::await_barrier(&mut w, "k", &b);
    assert!(is_pending(wait.poll(&mut w, task.id)));
    b.cancel(&mut w);
    // It hears of that when the barrier is resolved, and is not moved.
    assert!(is_pending(wait.poll(&mut w, task.id)));
    a.set_time(&mut w, f(4.0));
    barrier::resolve_barrier(&mut w, "k", &a);
    assert!(is_cancelled(wait.poll(&mut w, task.id)));
    assert_eq!(g(b.time(&w)), 0.0);
    // A cancelled context cannot wait for a barrier at all.
    b.set_time(&mut w, f(9.0));
    let mut again = barrier::await_barrier(&mut w, "k", &b);
    assert!(is_cancelled(again.poll(&mut w, task.id)));
}

#[test]
fn woken_tasks_run_in_the_order_of_their_wakes() {
    let mut w = World::new(SchedulerMode::Offline);
    let a = w.spawn();
    let b = w.spawn();
    assert!(w.has_ready_tasks());
    let mut order = Vec::new();
    let mut run = Run::Start;
    loop {
        run = w.run_until_stalled(run, false);
        match run {
            Run::Polling { task, .. } => order.push(task),
            _ => break,
        }
    }
    assert_eq!(order, vec![a.id, b.id]);
    assert!(matches!(run, Run::Stalled { polls: 2 }));
    w.wake(b.id);
    w.wake(a.id);
    w.wake(b.id);
    let mut order = Vec::new();
    let mut run = Run::Start;
    loop {
        run = w.run_until_stalled(run, true);
        match run {
            Run::Polling { task, .. } => order.push(task),
            _ => break,
        }
    }
    assert_eq!(order, vec![b.id, a.id]);
    // Both are complete: a wake no longer counts.
    w.wake(a.id);
    let run = w.run_until_stalled(Run::Start, false);
    assert!(matches!(run, Run::Stalled { polls: 0 }));
}

#[test]
fn barrier_resolved_before_the_first_poll_lets_go() {
    let mut w = World::new(SchedulerMode::Offline);
    let a = root(&mut w, 60.0, "a");
    let task = w.spawn();
    barrier::start_barrier(&mut w, "k", &a);
    let mut wait = barrier::await_barrier(&mut w, "k", &a);
    barrier::resolve_barrier(&mut w, "k", &a);
    assert!(is_ready(wait.poll(&mut w, task.id)));
    assert!(is_ready(wait.poll(&mut w, task.id)));
    // One who came before, and whom the barrier moves on.
    let b = a.branch(&mut w, BranchOptions::default()).ctx;
    barrier::start_barrier(&mut w, "m", &a);
    let mut wait = barrier::await_barrier(&mut w, "m", &b);
    a.set_time(&mut w, f(2.0));
    barrier::resolve_barrier(&mut w, "m", &a);
    assert!(is_ready(wait.poll(&mut w, task.id)));
    assert_eq!(g(b.time(&w)), 2.0);
    assert_eq!(g(w.most_recent()), 2.0);
}

#[test]
fn cancel_leaves_a_younger_sibling_waiting() {
    let mut w = World::new(SchedulerMode::Offline);
    let c = root(&mut w, 60.0, "a");
    let a = c.branch(&mut w, BranchOptions::default()).ctx;
    let b = c.branch(&mut w, BranchOptions::default()).ctx;
    let below = b.branch(&mut w, BranchOptions::default()).ctx;
    let task = w.spawn();
    let mut mine = a.wait_sec(&w, f(1.0));
    let mut other = b.wait_sec(&w, f(1.0));
    let mut deep = below.wait(&w, f(1.0));
    let mut frame = b.wait_frame();
    assert!(is_pending(mine.poll(&mut w, task.id)));
    assert!(is_pending(other.poll(&mut w, task.id)));
    assert!(is_pending(deep.poll(&mut w, task.id)));
    assert!(is_pending(frame.poll(&mut w, task.id, f(0.0))));
    a.cancel(&mut w);
    assert!(is_cancelled(mine.poll(&mut w, task.id)));
    assert!(!b.is_canceled(&w) && !below.is_canceled(&w) && !c.is_canceled(&w));
    assert!(is_pending(other.poll(&mut w, task.id)));
    assert!(is_pending(deep.poll(&mut w, task.id)));
    assert!(is_pending(frame.poll(&mut w, task.id, f(0.0))));
    assert_eq!(w.process_one_timeslice().len(), 1);
    assert_eq!(w.process_one_timeslice().len(), 1);
    assert!(is_ready(other.poll(&mut w, task.id)));
    assert!(is_ready(deep.poll(&mut w, task.id)));
    assert_eq!(g(b.time(&w)), 1.0);
}

#[test]
fn frame_wait_lasts_until_the_frame() {
    let mut w = World::new(SchedulerMode::Offline);
    let c = root(&mut w, 60.0, "a");
    let other = c.branch(&mut w, BranchOptions::default()).ctx;
    let task = w.spawn();
    let mut frame = c.wait_frame();
    assert!(is_pending(frame.poll(&mut w, task.id, f(0.0))));
    for i in 1..4 {
        let mut wait = c.wait_sec(&w, f(1.0));
        assert!(is_pending(wait.poll(&mut w, task.id)));
        assert_eq!(w.process_one_timeslice().len(), 1);
        assert!(is_ready(wait.poll(&mut w, task.id)));
        assert_eq!(g(c.time(&w)), i as f64);
        c.set_bpm(&mut w, f(60.0 + i as f64));
        assert!(is_pending(frame.poll(&mut w, task.id, f(0.0))));
    }
    other.cancel(&mut w);
    assert!(is_pending(frame.poll(&mut w, task.id, f(0.0))));
    assert_eq!(w.resolve_all_frame_waiters().len(), 1);
    assert!(is_ready(frame.poll(&mut w, task.id, f(0.0))));
}

#[test]
fn completed_task_that_woke_itself_is_not_polled_again() {
    let mut x = Executor::new();
    assert!(!x.has_ready_tasks());
    let a = x.spawn().id;
    let b = x.spawn().id;
    // The first task wakes itself and completes; the second spawns a third.
    let run = x.run_until_stalled(Run::Start, false);
    assert!(matches!(run, Run::Polling { task, polls: 1 } if task == a));
    x.enqueue(a);
    let run = x.run_until_stalled(run, true);
    assert!(matches!(run, Run::Polling { task, polls: 2 } if task == b));
    let c = x.spawn().id;
    let run = x.run_until_stalled(run, false);
    assert!(matches!(run, Run::Polling { task, polls: 3 } if task == c));
    let run = x.run_until_stalled(run, false);
    assert!(matches!(run, Run::Stalled { polls: 3 }));
    assert!(!x.has_ready_tasks());
    assert!(!x.is_live(a) && x.is_live(b) && x.is_live(c));
    x.enqueue(a);
    assert!(!x.has_ready_tasks());
    x.enqueue(b);
    assert!(x.has_ready_tasks());
}

#[test]
fn cancel_ends_the_waits_below_whoever_else_is_cancelled() {
    let mut w = World::new(SchedulerMode::Offline);
    let c = root(&mut w, 60.0, "a");
    // A cancelled context that gets a child afterwards, which is not.
    let gone = c.branch(&mut w, BranchOptions::default()).ctx;
    gone.cancel(&mut w);
    let late = gone.branch(&mut w, BranchOptions::default()).ctx;
    assert!(gone.is_canceled(&w) && !late.is_canceled(&w));
    let a = c.branch(&mut w, BranchOptions::default()).ctx;
    let b = a.branch(&mut w, BranchOptions::default()).ctx;
    let d = b.branch(&mut w, BranchOptions::default()).ctx;
    let task = w.spawn();
    let mut time = d.wait_sec(&w, f(1.0));
    let mut beat = b.wait(&w, f(1.0));
    let mut frame = d.wait_frame();
    let mut own = a.wait_sec(&w, f(2.0));
    let mut kept = late.wait_sec(&w, f(1.0));
    assert!(is_pending(time.poll(&mut w, task.id)));
    assert!(is_pending(beat.poll(&mut w, task.id)));
    assert!(is_pending(frame.poll(&mut w, task.id, f(0.0))));
    assert!(is_pending(own.poll(&mut w, task.id)));
    assert!(is_pending(kept.poll(&mut w, task.id)));
    a.cancel(&mut w);
    assert!(a.is_canceled(&w) && b.is_canceled(&w) && d.is_canceled(&w));
    assert!(is_cancelled(time.poll(&mut w, task.id)));
    assert!(is_cancelled(beat.poll(&mut w, task.id)));
    assert!(is_cancelled(frame.poll(&mut w, task.id, f(0.0))));
    assert!(is_cancelled(own.poll(&mut w, task.id)));
    assert!(is_pending(kept.poll(&mut w, task.id)));
    assert!(w.resolve_all_frame_waiters().is_empty());
    assert_eq!(w.process_one_timeslice().len(), 1);
    assert!(w.process_one_timeslice().is_empty());
}

#[test]
fn cancelled_frame_wait_fails_before_the_frame() {
    let mut w = World::new(SchedulerMode::Offline);
    let c = root(&mut w, 60.0, "a");
    let a = c.branch(&mut w, BranchOptions::default()).ctx;
    let task = w.spawn();
    let mut mine = a.wait_frame();
    let mut other = c.wait_frame();
    assert!(is_pending(mine.poll(&mut w, task.id, f(0.0))));
    assert!(is_pending(other.poll(&mut w, task.id, f(0.0))));
    a.cancel(&mut w);
    assert_eq!(w.resolve_all_frame_waiters().len(), 1);
    assert!(is_cancelled(mine.poll(&mut w, task.id, f(0.0))));
    assert!(is_ready(other.poll(&mut w, task.id, f(0.0))));
}

#[test]
fn numbers_are_left_in_a_new_world() {
    let mut w = World::new(SchedulerMode::Offline);
    let c = root(&mut w, 60.0, "a");
    assert!(w.has_numbers(c.id));
    assert!(w.executor.has_room() && w.scheduler.has_room());
}

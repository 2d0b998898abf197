//! The loops of the engine, one step at a time.
use rust_timing_lib::context::{BranchOptions, WaitPoll};
use rust_timing_lib::engine::{
    launch_offline, launch_offline_with_config, launch_realtime, launch_realtime_with_config,
    Advance, AdvanceStage, Engine, EngineConfig, Frames, LoopStep, OfflineRunner, RealtimeRunner,
    Tick, MAX_TIMESLICES,
};
use rust_timing_lib::executor::Run;
use rust_timing_lib::flt::Flt;
use rust_timing_lib::scheduler::SchedulerMode;

fn f(x: f64) -> Flt {
    Flt::from_bits(x.to_bits())
}

fn g(x: Flt) -> f64 {
    f64::from_bits(x.to_bits())
}

/// Polls nothing, and has every task go on.
fn drain(e: &mut Engine) {
    let mut run = Run::Start;
    loop {
        run = e.world.run_until_stalled(run, false);
        if matches!(run, Run::Stalled { .. }) {
            return;
        }
    }
}

#[test]
fn config_has_defaults() {
    let c = EngineConfig::default();
    assert_eq!((g(c.bpm), c.seed.as_str(), g(c.fps), g(c.rate)), (60.0, "default", 60.0, 1.0));
    let d = c.clone();
    assert_eq!(d.seed, c.seed);
}

#[test]
fn advance_takes_slices_up_to_its_target() {
    let mut e = Engine::new(SchedulerMode::Offline, EngineConfig::default());
    let task = e.spawn();
    let mut early = e.root_ctx.wait_sec(&e.world, f(1.0));
    let mut late = e.root_ctx.wait_sec(&e.world, f(3.0));
    drain(&mut e);
    assert!(matches!(early.poll(&mut e.world, task.id), WaitPoll::Pending));
    assert!(matches!(late.poll(&mut e.world, task.id), WaitPoll::Pending));
    let a = e.advance_to(f(2.0));
    let a = e.advance_step(a);
    assert_eq!(a.stage, AdvanceStage::Slice);
    assert_eq!(g(e.world.now(f(0.0))), 1.0);
    assert!(e.world.has_ready_tasks());
    drain(&mut e);
    assert!(matches!(early.poll(&mut e.world, task.id), WaitPoll::Ready(Ok(()))));
    let a = e.advance_step(a);
    assert_eq!((a.stage, a.processed), (AdvanceStage::Last, 1));
    assert_eq!(g(e.world.now(f(0.0))), 2.0);
    let a = e.advance_step(a);
    assert_eq!(a.stage, AdvanceStage::Over);
    assert!(matches!(late.poll(&mut e.world, task.id), WaitPoll::Pending));
}

#[test]
fn advance_before_the_start_is_to_the_start() {
    let e = Engine::new(SchedulerMode::Offline, EngineConfig::default());
    assert_eq!(g(e.advance_to(f(-4.0)).target), 0.0);
    assert_eq!(g(e.step_sec(f(f64::NAN), f(0.0)).target), 0.0);
    assert_eq!(g(e.step_sec(f(0.5), f(0.0)).target), 0.5);
}

#[test]
fn advance_is_not_endless() {
    let mut e = Engine::new(SchedulerMode::Offline, EngineConfig::default());
    let a = Advance { target: f(1.0), processed: MAX_TIMESLICES, stage: AdvanceStage::Slice };
    assert_eq!(e.advance_step(a).stage, AdvanceStage::Overrun);
    let a = Advance { target: f(1.0), processed: MAX_TIMESLICES - 1, stage: AdvanceStage::Slice };
    assert_eq!(e.advance_step(a).stage, AdvanceStage::Last);
}

#[test]
fn frames_step_and_tick() {
    let mut config = EngineConfig::default();
    config.fps = f(4.0);
    let mut e = Engine::new(SchedulerMode::Offline, config);
    let task = e.spawn();
    let mut wait = e.root_ctx.wait_frame();
    drain(&mut e);
    assert!(matches!(wait.poll(&mut e.world, task.id, f(0.0)), WaitPoll::Pending));
    let mut fr = e.step_frame(f(0.0));
    let mut ticks = 0;
    while fr != Frames::Over {
        drain(&mut e);
        fr = e.frames_step(fr, f(0.0));
        if matches!(fr, Frames::Ticking { tick: Tick::Draining { .. }, .. }) {
            ticks += 1;
        }
    }
    assert_eq!(ticks, 1);
    assert_eq!(g(e.world.now(f(0.0))), 0.25);
    assert!(matches!(wait.poll(&mut e.world, task.id, f(0.0)), WaitPoll::Ready(Ok(()))));
    assert_eq!(e.step_frames(0, f(0.0)), Frames::Over);
}

#[test]
fn tick_settles_at_the_present() {
    let mut e = Engine::new(SchedulerMode::Offline, EngineConfig::default());
    e.world.set_offline_now(f(2.0));
    let mut k = e.resolve_frame_tick();
    assert_eq!(k, Tick::Draining { t: f(2.0) });
    loop {
        drain(&mut e);
        k = e.tick_step(k);
        if let Tick::Settling(a) = k {
            if a.stage == AdvanceStage::Over {
                assert_eq!(g(a.target), 2.0);
                return;
            }
        }
    }
}

#[test]
fn real_time_sleeps_until_something_is_due() {
    let mut config = EngineConfig::default();
    config.rate = f(2.0);
    let mut e = Engine::new(SchedulerMode::Realtime, config);
    assert_eq!(e.run_until(true, f(0.0)), LoopStep::Done);
    assert_eq!(e.run_until(false, f(0.0)), LoopStep::Ask);
    assert_eq!(e.run_until_complete(f(0.0)), LoopStep::Done);
    let task = e.spawn();
    drain(&mut e);
    let mut wait = e.root_ctx.wait_sec(&e.world, f(3.0));
    assert!(matches!(wait.poll(&mut e.world, task.id), WaitPoll::Pending));
    // Three seconds of logical time take one and a half at this rate.
    assert_eq!(e.run_until(false, f(0.0)), LoopStep::Sleep(f(1.5)));
    assert_eq!(e.run_until_complete(f(1.0)), LoopStep::Sleep(f(0.5)));
    assert_eq!(e.run_until(false, f(1.5)), LoopStep::Drain);
    assert!(matches!(wait.poll(&mut e.world, task.id), WaitPoll::Ready(Ok(()))));
    let mut frame = e.root_ctx.wait_frame();
    drain(&mut e);
    assert!(matches!(frame.poll(&mut e.world, task.id, f(1.5)), WaitPoll::Pending));
    assert_eq!(e.run_until(false, f(1.5)), LoopStep::Pause);
    assert_eq!(e.run_until_complete(f(1.5)), LoopStep::Pause);
    let root = e.root_ctx;
    root.cancel(&mut e.world);
    drain(&mut e);
    assert_eq!(e.run_until_complete(f(1.5)), LoopStep::Done);
}

#[test]
fn rate_change_does_not_move_time() {
    let mut e = Engine::new(SchedulerMode::Realtime, EngineConfig::default());
    let before = g(e.world.now(f(0.7)));
    e.world.set_rate(f(3.0), f(0.7));
    assert_eq!(g(e.world.now(f(0.0))), before);
    assert_eq!(g(e.world.now(f(1.0))), before + 3.0);
}

#[test]
fn runners_start_with_one_task() {
    let mut config = EngineConfig::default();
    config.bpm = f(90.0);
    let r: OfflineRunner = launch_offline();
    assert!(r.engine.world.has_ready_tasks());
    assert_eq!(g(r.now()), 0.0);
    assert_eq!(r.scheduler().mode, SchedulerMode::Offline);
    assert_eq!(g(r.step_sec(f(1.0)).target), 1.0);
    assert!(matches!(r.step_frame(), Frames::Stepping { left: 1, .. }));
    assert!(matches!(r.step_frames(3), Frames::Stepping { left: 3, .. }));
    let r = launch_offline_with_config(config.clone());
    assert_eq!(g(r.ctx().bpm(&r.engine.world)), 90.0);
    let mut r: RealtimeRunner = launch_realtime();
    drain(&mut r.engine);
    assert_eq!(r.run_until(false, f(0.0)), LoopStep::Ask);
    assert_eq!(r.run_until_complete(f(0.0)), LoopStep::Pause);
    let r = launch_realtime_with_config(config);
    assert_eq!(g(r.ctx().bpm(&r.engine.world)), 90.0);
}

#[test]
fn root_task_ends_the_run() {
    let mut e = Engine::new(SchedulerMode::Realtime, EngineConfig::default());
    let root = e.spawn();
    let side = e.world.spawn();
    assert_eq!(e.root_task, Some(root.id));
    let branch = e.root_ctx.branch(&mut e.world, BranchOptions::default()).ctx;
    let mut wait = branch.wait_sec(&e.world, f(5.0));
    let mut run = e.world.run_until_stalled(Run::Start, false);
    assert!(matches!(run, Run::Polling { task, .. } if task == root.id));
    // The root task goes on: its engine does, too, with nothing to wait for.
    run = e.world.run_until_stalled(run, false);
    assert!(matches!(run, Run::Polling { task, .. } if task == side.id));
    assert!(matches!(wait.poll(&mut e.world, side.id), WaitPoll::Pending));
    run = e.world.run_until_stalled(run, false);
    assert!(matches!(run, Run::Stalled { polls: 2 }));
    assert_eq!(e.run_until_complete(f(0.0)), LoopStep::Sleep(f(5.0)));
    // It completes while the other one still waits.
    e.world.wake(root.id);
    run = e.world.run_until_stalled(Run::Start, false);
    run = e.world.run_until_stalled(run, true);
    assert!(matches!(run, Run::Stalled { polls: 1 }));
    assert!(e.world.has_pending_waits());
    assert_eq!(e.run_until_complete(f(0.0)), LoopStep::Done);
}

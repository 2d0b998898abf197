//! One script, in steps and in real time.
use rust_timing_lib::context::{Ctx, TimeWaitFuture, WaitPoll};
use rust_timing_lib::engine::{AdvanceStage, LoopStep};
use rust_timing_lib::executor::Run;
use rust_timing_lib::flt::Flt;
use rust_timing_lib::{BranchOptions, Engine, EngineConfig, SchedulerMode};

fn f(x: f64) -> Flt {
    Flt::from_bits(x.to_bits())
}

fn g(x: Flt) -> f64 {
    f64::from_bits(x.to_bits())
}

fn config(rate: f64) -> EngineConfig {
    EngineConfig { bpm: f(120.0), seed: "replay".to_string(), fps: f(60.0), rate: f(rate) }
}

/// A voice that waits, draws a number and waits again. The first one outlasts
/// the others.
struct Voice {
    ctx: Ctx,
    task: u64,
    rest: f64,
    left: usize,
    wait: TimeWaitFuture,
}

fn voices(e: &mut Engine) -> Vec<Voice> {
    let mut all: Vec<Voice> = Vec::new();
    let root = e.spawn().id;
    for (rest, left) in [(2.0, 1), (0.25, 6), (0.5, 3), (0.125, 5)] {
        let ctx = e.root_ctx.branch(&mut e.world, BranchOptions::default()).ctx;
        let task = if all.is_empty() { root } else { e.world.spawn().id };
        let wait = ctx.wait_sec(&e.world, f(rest));
        all.push(Voice { ctx, task, rest, left, wait });
    }
    all
}

/// Polls the ready voices; the log holds who, when, and what was drawn.
fn drain(e: &mut Engine, all: &mut Vec<Voice>, log: &mut Vec<(u64, f64, f64)>) {
    let mut run = Run::Start;
    let mut completed = false;
    loop {
        run = e.world.run_until_stalled(run, completed);
        let task = match run {
            Run::Polling { task, .. } => task,
            _ => return,
        };
        let v = all.iter_mut().find(|v| v.task == task).unwrap();
        completed = false;
        while !completed && matches!(v.wait.poll(&mut e.world, task), WaitPoll::Ready(Ok(()))) {
            let drawn = g(v.ctx.random(&mut e.world));
            log.push((v.ctx.id(), g(v.ctx.time(&e.world)), drawn));
            v.left -= 1;
            completed = v.left == 0;
            v.wait = v.ctx.wait_sec(&e.world, f(v.rest));
        }
    }
}

fn stepped() -> Vec<(u64, f64, f64)> {
    let mut e = Engine::new(SchedulerMode::Offline, config(1.0));
    let mut all = voices(&mut e);
    let mut log = Vec::new();
    let mut a = e.advance_to(f(10.0));
    while a.stage != AdvanceStage::Over {
        drain(&mut e, &mut all, &mut log);
        a = e.advance_step(a);
    }
    log
}

/// The wall clock moves by as much as the host sleeps, and a little more.
fn in_real_time(rate: f64, late: f64) -> Vec<(u64, f64, f64)> {
    let mut e = Engine::new(SchedulerMode::Realtime, config(rate));
    let mut all = voices(&mut e);
    let mut log = Vec::new();
    let mut wall = 0.0;
    loop {
        drain(&mut e, &mut all, &mut log);
        match e.run_until_complete(f(wall)) {
            LoopStep::Done => return log,
            LoopStep::Sleep(dt) => wall += g(dt) + late,
            _ => {}
        }
    }
}

#[test]
fn real_time_does_what_steps_do() {
    let once = stepped();
    assert_eq!(once.len(), 15);
    for (rate, late) in [(1.0, 0.001), (100.0, 0.001), (3.0, 0.2)] {
        assert_eq!(in_real_time(rate, late), once);
    }
}

#[test]
fn logged_times_never_run_back() {
    let log = stepped();
    assert!(log.windows(2).all(|p| p[0].1 <= p[1].1));
    assert_eq!(log.last().unwrap().1, 2.0);
    let due: Vec<u64> = log.iter().filter(|e| e.1 == 0.5).map(|e| e.0).collect();
    assert_eq!(due, vec![3, 2, 4]);
}

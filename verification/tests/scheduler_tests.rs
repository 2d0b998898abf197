//! The scheduler's queues.
use rust_timing_lib::flt::Flt;
use rust_timing_lib::executor::Run;
use rust_timing_lib::world::World;
use rust_timing_lib::scheduler::{
    BeatWaitMeta, FrameWaitMeta, SchedulerMode, TimeScheduler, TimeWaitMeta, WaitState, WaiterKind,
};
use rust_timing_lib::tempo::Tempos;

fn f(x: f64) -> Flt {
    Flt::from_bits(x.to_bits())
}

fn g(x: Flt) -> f64 {
    f64::from_bits(x.to_bits())
}

#[test]
fn test_scheduler_creation() {
    let sched = TimeScheduler::new(SchedulerMode::Offline);
    assert_eq!(sched.mode, SchedulerMode::Offline);
    assert!((g(sched.now(f(0.0))) - 0.0).abs() < 1e-10);
}

#[test]
fn test_alloc_seq() {
    let mut sched = TimeScheduler::new(SchedulerMode::Offline);
    assert_eq!(sched.alloc_seq(), 0);
    assert_eq!(sched.alloc_seq(), 1);
    assert_eq!(sched.alloc_seq(), 2);
}

#[test]
fn test_peek_next_event_time_empty() {
    let mut sched = TimeScheduler::new(SchedulerMode::Offline);
    assert_eq!(sched.peek_next_event_time(), None);
}

fn ready(w: &mut World) -> Vec<u64> {
    let mut all = Vec::new();
    let mut run = Run::Start;
    loop {
        run = w.run_until_stalled(run, false);
        match run {
            Run::Polling { task, .. } => all.push(task),
            _ => return all,
        }
    }
}

#[test]
fn wait_ends_once() {
    let mut w = World::new(SchedulerMode::Offline);
    let first = w.spawn().id;
    let second = w.spawn().id;
    ready(&mut w);

    let s = WaitState::new(&mut w);
    let c = s.clone();
    assert!(!c.is_done(&w) && !c.is_cancelled(&w) && !c.is_complete(&w));
    s.set_waker(&mut w, first);
    s.complete_ok(&mut w);
    assert!(c.is_done(&w) && !c.is_cancelled(&w) && c.is_complete(&w));
    assert_eq!(ready(&mut w), vec![first]);
    c.complete_cancelled(&mut w);
    assert!(s.is_done(&w) && !s.is_cancelled(&w));
    assert_eq!(ready(&mut w), vec![]);

    let t = WaitState::new(&mut w);
    assert!(!t.is_complete(&w));
    t.set_waker(&mut w, second);
    t.complete_cancelled(&mut w);
    assert!(!t.is_done(&w) && t.is_cancelled(&w) && t.is_complete(&w));
    assert_eq!(ready(&mut w), vec![second]);
    t.complete_ok(&mut w);
    assert!(!t.is_done(&w));
    assert_eq!(ready(&mut w), vec![]);
}

#[test]
fn logical_time_runs_at_its_rate() {
    let mut s = TimeScheduler::new(SchedulerMode::Realtime);
    assert_eq!(g(s.now(f(3.0))), 3.0);
    s.set_rate(f(2.0), f(3.0));
    assert_eq!(g(s.rate()), 2.0);
    // The host counts seconds from here anew.
    assert_eq!(g(s.now(f(0.0))), 3.0);
    assert_eq!(g(s.now(f(1.0))), 5.0);
    s.set_rate(f(-2.0), f(1.0));
    assert_eq!(g(s.rate()), 1.0);
    let mut s = TimeScheduler::new(SchedulerMode::Offline);
    s.set_offline_now(f(1.5));
    assert_eq!(g(s.now(f(99.0))), 1.5);
    assert_eq!(g(s.offline_time()), 1.5);
}

fn time_meta(id: u64, at: f64, seq: u64) -> TimeWaitMeta {
    TimeWaitMeta { seq, target_time: f(at), waiter_id: id }
}

#[test]
fn slices_come_in_time_and_insertion_order() {
    let t = Tempos::new();
    let mut s = TimeScheduler::new(SchedulerMode::Offline);
    for (id, at) in [(10, 2.0), (11, 1.0), (12, 1.0), (13, 0.5)] {
        let seq = s.alloc_seq();
        s.add_time_wait(time_meta(id, at, seq));
    }
    assert!(s.has_pending_waits());
    assert_eq!(s.peek_next_event_time(), Some(f(0.5)));
    assert_eq!(s.process_one_timeslice(&t), vec![13]);
    assert_eq!(s.process_one_timeslice(&t), vec![11, 12]);
    assert!(s.cancel_waiter(10, WaiterKind::Time, &t));
    assert!(!s.cancel_waiter(10, WaiterKind::Time, &t));
    assert_eq!(s.peek_next_event_time(), None);
    assert!(!s.has_pending_waits());
}

#[test]
fn beat_waits_move_with_their_tempo() {
    let mut t = Tempos::new();
    let a = t.create(f(60.0));
    let mut s = TimeScheduler::new(SchedulerMode::Offline);
    for (id, beat) in [(1, 4.0), (2, 2.0)] {
        let seq = s.alloc_seq();
        s.add_beat_wait(
            BeatWaitMeta { seq, target_beat: f(beat), waiter_id: id, tempo_id: a },
            &t,
        );
    }
    assert_eq!(s.peek_next_event_time(), Some(f(2.0)));
    t.set_bpm(a, f(120.0), f(1.0));
    s.on_tempo_changed(a, &t);
    assert_eq!(s.peek_next_event_time(), Some(f(1.5)));
    assert_eq!(s.process_one_timeslice(&t), vec![2]);
    assert_eq!(s.peek_next_event_time(), Some(f(2.5)));
    assert_eq!(s.process_one_timeslice(&t), vec![1]);
}

#[test]
fn frame_waits_leave_together() {
    let mut s = TimeScheduler::new(SchedulerMode::Offline);
    for id in 0..3u64 {
        let seq = s.alloc_seq();
        s.add_frame_wait(FrameWaitMeta { seq, waiter_id: id });
    }
    let t = Tempos::new();
    assert!(s.cancel_waiter(1, WaiterKind::Frame, &t));
    assert_eq!(s.resolve_all_frame_waiters(), vec![0, 2]);
    assert_eq!(s.resolve_all_frame_waiters(), Vec::<u64>::new());
}

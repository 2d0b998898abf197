//! Tempo maps.
use rust_timing_lib::flt::Flt;
use rust_timing_lib::tempo::{clamp_pos, TempoMap, Tempos};

fn f(x: f64) -> Flt {
    Flt::from_bits(x.to_bits())
}

fn g(x: Flt) -> f64 {
    f64::from_bits(x.to_bits())
}

struct Line(TempoMap);

impl Line {
    fn new(bpm: f64) -> Line {
        Line(TempoMap::new(f(bpm), 0))
    }

    fn bpm_at_time(&self, t: f64) -> f64 {
        g(self.0.bpm_at_time(f(t)))
    }

    fn beats_at_time(&self, t: f64) -> f64 {
        g(self.0.beats_at_time(f(t)))
    }

    fn time_at_beats(&self, b: f64) -> f64 {
        g(self.0.time_at_beats(f(b)))
    }

    fn set_bpm_at_time(&mut self, bpm: f64, t: f64) {
        self.0.set_bpm_at_time(f(bpm), f(t));
    }

    fn ramp_to_bpm_at_time(&mut self, bpm: f64, dur: f64, t: f64) {
        self.0.ramp_to_bpm_at_time(f(bpm), f(dur), f(t));
    }
}

#[test]
fn test_constant_tempo() {
    let tm = Line::new(120.0); // 2 beats per second

    assert!((tm.bpm_at_time(0.0) - 120.0).abs() < 1e-10);
    assert!((tm.bpm_at_time(1.0) - 120.0).abs() < 1e-10);

    // At 120 BPM, 1 second = 2 beats
    assert!((tm.beats_at_time(1.0) - 2.0).abs() < 1e-10);
    assert!((tm.beats_at_time(0.5) - 1.0).abs() < 1e-10);

    // Inverse: 4 beats should be at t=2
    assert!((tm.time_at_beats(4.0) - 2.0).abs() < 1e-10);
}

#[test]
fn test_tempo_change() {
    let mut tm = Line::new(60.0); // 1 beat per second

    // At t=2, we have 2 beats
    assert!((tm.beats_at_time(2.0) - 2.0).abs() < 1e-10);

    // Change to 120 BPM at t=2
    tm.set_bpm_at_time(120.0, 2.0);

    // At t=3 (1 sec after change at 120 BPM), we have 2 + 2 = 4 beats
    assert!((tm.beats_at_time(3.0) - 4.0).abs() < 1e-10);
}

#[test]
fn test_time_at_beats_with_tempo_change() {
    let mut tm = Line::new(60.0); // 1 beat/sec

    // Change to 120 BPM at t=1 (at 1 beat)
    tm.set_bpm_at_time(120.0, 1.0);

    // 3 beats: 1 beat in first second, 2 more beats in 1 second = t=2
    let t = tm.time_at_beats(3.0);
    assert!((t - 2.0).abs() < 1e-10);
}

#[test]
fn ramp_speeds_up_evenly_and_stays() {
    let mut tm = Line::new(60.0);
    tm.ramp_to_bpm_at_time(180.0, 4.0, 1.0);
    assert_eq!(tm.bpm_at_time(0.5), 60.0);
    assert_eq!(tm.bpm_at_time(1.0), 60.0);
    assert_eq!(tm.bpm_at_time(3.0), 120.0);
    assert_eq!(tm.bpm_at_time(5.0), 180.0);
    assert_eq!(tm.bpm_at_time(100.0), 180.0);
    // One beat before the ramp, then 4 s at 120 on average, then 3 a second.
    assert_eq!(tm.beats_at_time(1.0), 1.0);
    assert_eq!(tm.beats_at_time(5.0), 9.0);
    assert_eq!(tm.beats_at_time(6.0), 12.0);
    assert!((tm.time_at_beats(9.0) - 5.0).abs() < 1e-12);
    assert!((tm.time_at_beats(4.0) - 3.0).abs() < 1e-12);
    assert!((tm.time_at_beats(12.0) - 6.0).abs() < 1e-12);
}

#[test]
fn ramp_slows_down_too() {
    let mut tm = Line::new(120.0);
    tm.ramp_to_bpm_at_time(60.0, 2.0, 0.0);
    assert_eq!(tm.bpm_at_time(1.0), 90.0);
    assert_eq!(tm.beats_at_time(2.0), 3.0);
    assert!((tm.time_at_beats(3.0) - 2.0).abs() < 1e-12);
    assert!((tm.time_at_beats(4.0) - 3.0).abs() < 1e-12);
}

#[test]
fn ramp_without_length_is_a_change() {
    let mut tm = Line::new(60.0);
    tm.ramp_to_bpm_at_time(120.0, 0.0, 2.0);
    assert_eq!(tm.bpm_at_time(2.0), 120.0);
    assert_eq!(tm.beats_at_time(3.0), 4.0);
    let mut tm = Line::new(60.0);
    tm.ramp_to_bpm_at_time(120.0, -1.0, 2.0);
    assert_eq!(tm.bpm_at_time(2.0), 120.0);
}

#[test]
fn change_drops_what_was_planned() {
    let mut tm = Line::new(60.0);
    tm.ramp_to_bpm_at_time(180.0, 10.0, 0.0);
    tm.set_bpm_at_time(60.0, 5.0);
    assert_eq!(tm.bpm_at_time(5.0), 60.0);
    assert_eq!(tm.bpm_at_time(10.0), 60.0);
    // Within the first half of the ramp the tempo went from 60 to 120.
    assert!((tm.bpm_at_time(2.5) - 90.0).abs() < 1e-12);
    assert!((tm.beats_at_time(5.0) - 7.5).abs() < 1e-12);
}

#[test]
fn set_tempo_keeps_the_past() {
    let mut tm = Line::new(90.0);
    let before: Vec<f64> = (0..10).map(|i| tm.beats_at_time(i as f64 * 0.3)).collect();
    tm.set_bpm_at_time(200.0, 3.0);
    let after: Vec<f64> = (0..10).map(|i| tm.beats_at_time(i as f64 * 0.3)).collect();
    assert_eq!(before, after);
}

#[test]
fn odd_tempos_count_as_one() {
    for bad in [0.0, -5.0, f64::NAN, f64::INFINITY, f64::NEG_INFINITY] {
        assert_eq!(g(clamp_pos(f(bad))), 1.0);
        assert_eq!(Line::new(bad).bpm_at_time(0.0), 1.0);
    }
    assert_eq!(g(clamp_pos(f(0.25))), 0.25);
}

#[test]
fn odd_beats_have_a_time() {
    let tm = Line::new(60.0);
    assert_eq!(tm.time_at_beats(0.0), 0.0);
    assert_eq!(tm.time_at_beats(-3.0), 0.0);
    assert_eq!(tm.time_at_beats(f64::NAN), f64::INFINITY);
    assert_eq!(tm.time_at_beats(f64::INFINITY), f64::INFINITY);
    assert_eq!(tm.beats_at_time(-2.0), 0.0);
}

#[test]
fn change_before_the_start_is_at_the_start() {
    let mut tm = Line::new(60.0);
    tm.set_bpm_at_time(120.0, -4.0);
    assert_eq!(tm.bpm_at_time(0.0), 120.0);
    assert_eq!(tm.bpm_at_time(0.001), 120.0);
    assert_eq!(tm.beats_at_time(1.0), 2.0);
}

#[test]
fn table_keeps_maps_apart() {
    let mut t = Tempos::new();
    let a = t.create(f(60.0));
    let b = t.copy_of(a);
    assert_ne!(a, b);
    t.set_bpm(a, f(120.0), f(1.0));
    assert_eq!(g(t.get(a).bpm_at_time(f(2.0))), 120.0);
    assert_eq!(g(t.get(b).bpm_at_time(f(2.0))), 60.0);
    t.ramp(b, f(180.0), f(2.0), f(0.0));
    assert_eq!(g(t.get(b).bpm_at_time(f(1.0))), 120.0);
    assert_eq!(g(t.get(a).bpm_at_time(f(0.5))), 60.0);
}

#[test]
fn copy_has_another_identity() {
    let tm = TempoMap::new(f(60.0), 3);
    let other = tm.clone_with_new_id(4);
    assert_eq!(g(other.bpm_at_time(f(0.0))), 60.0);
}

#[test]
fn beats_and_times_come_back() {
    let eps = 2f64.powi(-50);
    for bpm in [1.0, 59.94, 60.0, 90.0, 120.0, 133.7, 1e-3, 1e5] {
        let tm = Line::new(bpm);
        for i in 1..200 {
            let x = i as f64 * 0.37;
            assert!((tm.beats_at_time(tm.time_at_beats(x)) - x).abs() <= x * eps, "{bpm} {x}");
            assert!((tm.time_at_beats(tm.beats_at_time(x)) - x).abs() <= x * eps, "{bpm} {x}");
        }
    }
}

#[test]
fn beats_do_not_run_backwards() {
    let tm = Line::new(133.7);
    let mut last = 0.0;
    for i in 0..1000 {
        let b = tm.beats_at_time(i as f64 * 0.0101);
        assert!(b >= last);
        last = b;
    }
}

#[test]
fn tempo_set_at_the_start_holds_there() {
    let mut tm = Line::new(60.0);
    tm.set_bpm_at_time(120.0, 0.0);
    assert_eq!(tm.bpm_at_time(0.0), 120.0);
    assert_eq!(tm.bpm_at_time(-1.0), 60.0);
    assert_eq!(tm.beats_at_time(1.0), 2.0);
    assert_eq!(tm.0.version, 1);
    tm.ramp_to_bpm_at_time(60.0, 2.0, 0.0);
    assert_eq!(tm.bpm_at_time(0.0), 120.0);
    assert_eq!(tm.bpm_at_time(-1.0), 60.0);
    assert_eq!(tm.bpm_at_time(1.0), 90.0);
}

#[test]
fn tempo_before_the_start_is_the_first() {
    let mut tm = Line::new(60.0);
    tm.set_bpm_at_time(120.0, 0.0);
    assert_eq!(tm.bpm_at_time(-1e-9), 60.0);
    assert_eq!(tm.bpm_at_time(-0.0), 120.0);
    assert_eq!(tm.beats_at_time(-1.0), 0.0);
    assert_eq!(tm.bpm_at_time(f64::NAN), 60.0);
    let mut later = Line::new(60.0);
    later.set_bpm_at_time(120.0, 2.0);
    assert_eq!(later.bpm_at_time(-4.0), 60.0);
    assert_eq!(later.bpm_at_time(1.0), 60.0);
}

fn comes_back(tm: &Line, to: f64) {
    let mut last = 0.0;
    let mut t = 0.0;
    while t <= to {
        let back = tm.time_at_beats(tm.beats_at_time(t));
        assert!((back - t).abs() < 1e-6);
        assert!(back >= last - 1e-6);
        last = back;
        // A beat comes back as well as a time does, at up to 17 beats a second.
        let b = tm.beats_at_time(t) + 0.01;
        assert!((tm.beats_at_time(tm.time_at_beats(b)) - b).abs() < 1e-5);
        t += 0.0137 + t / 500.0;
    }
}

#[test]
fn times_come_back_after_changes_and_ramps() {
    let mut tm = Line::new(90.0);
    tm.set_bpm_at_time(140.0, 3.5);
    tm.set_bpm_at_time(1.0, 3.5);
    tm.set_bpm_at_time(1000.0, 7.25);
    comes_back(&tm, 1000.0);
    tm.ramp_to_bpm_at_time(1.0, 999.0, 10.0);
    comes_back(&tm, 1000.0);
    // The ramp is cut on its way.
    tm.ramp_to_bpm_at_time(250.0, 0.001, 400.25);
    comes_back(&tm, 1000.0);
    tm.set_bpm_at_time(33.3, 400.2504);
    comes_back(&tm, 1000.0);
    tm.ramp_to_bpm_at_time(34.3, 1000.0, 700.0);
    comes_back(&tm, 1000.0);
    // A steep ramp, down and up.
    tm.ramp_to_bpm_at_time(1.0, 0.000001, 800.0);
    tm.ramp_to_bpm_at_time(1000.0, 0.00001, 801.0);
    comes_back(&tm, 1000.0);
    for i in 0..20 {
        for t0 in [800.0, 801.0] {
            let t = t0 + i as f64 * 0.0000007;
            assert!((tm.time_at_beats(tm.beats_at_time(t)) - t).abs() < 1e-6);
        }
    }
}

#[test]
fn times_come_back_where_segments_meet() {
    let mut tm = Line::new(60.0);
    tm.set_bpm_at_time(120.0, 1.0);
    tm.ramp_to_bpm_at_time(240.0, 2.0, 2.0);
    for t in [0.0, 1.0, 2.0, 4.0] {
        assert!((tm.time_at_beats(tm.beats_at_time(t)) - t).abs() < 1e-6);
    }
    assert_eq!(tm.beats_at_time(1.0), 1.0);
    assert_eq!(tm.beats_at_time(2.0), 3.0);
    assert_eq!(tm.beats_at_time(4.0), 9.0);
    assert_eq!(tm.time_at_beats(1.0), 1.0);
    assert_eq!(tm.time_at_beats(9.0), 4.0);
}

#[test]
fn beats_come_back_on_a_ramp() {
    let mut tm = Line::new(60.0);
    tm.ramp_to_bpm_at_time(180.0, 60.0, 0.0);
    for i in 1..119 {
        let b = i as f64;
        assert!((tm.beats_at_time(tm.time_at_beats(b)) - b).abs() < 1e-6);
        assert!(tm.time_at_beats(b) < tm.time_at_beats(b + 1.0));
    }
}

#[test]
fn beats_before_the_start_have_its_time() {
    let mut tm = Line::new(60.0);
    tm.ramp_to_bpm_at_time(180.0, 60.0, 1.0);
    for b in [0.0, -0.0, -1.0, -1e300, f64::MIN] {
        assert_eq!(tm.time_at_beats(b), 0.0);
    }
    for b in [f64::NAN, f64::INFINITY, f64::NEG_INFINITY] {
        assert_eq!(tm.time_at_beats(b), f64::INFINITY);
    }
}

#[test]
fn changes_closer_than_a_beat_can_tell_lose_time() {
    let mut tm = Line::new(1000.0);
    let mut t = 900.0;
    for _ in 0..30000 {
        tm.set_bpm_at_time(1.0, t);
        t += 5e-11;
    }
    // Each of these stretches adds less to the beats than their last bit.
    assert_eq!(tm.beats_at_time(t), 15000.0);
    assert!((tm.time_at_beats(tm.beats_at_time(t)) - t).abs() > 1e-6);
}

#[test]
fn times_come_back_after_many_changes() {
    let mut tm = Line::new(60.0);
    for i in 1..2000 {
        tm.set_bpm_at_time((1 + (i * 37) % 1000) as f64, i as f64 * 0.4);
    }
    for i in 0..2000 {
        let t = i as f64 * 0.41;
        assert!((tm.time_at_beats(tm.beats_at_time(t)) - t).abs() < 1e-6);
    }
}

#[test]
fn times_come_back_on_short_ramps() {
    for dur in [1e-7, 1e-9, 1e-12, 1e-15, 1e-30, 1e-200] {
        for start in [0.0, 0.3, 5.0, 777.7] {
            let mut tm = Line::new(60.0);
            tm.ramp_to_bpm_at_time(600.0, dur, start);
            tm.ramp_to_bpm_at_time(30.0, dur, start + 2.0);
            for i in 0..8 {
                for t in [start + dur * i as f64 / 4.0, start + 2.0 + dur * i as f64 / 4.0] {
                    let back = tm.time_at_beats(tm.beats_at_time(t));
                    assert!((back - t).abs() < 1e-6, "{dur} {start} {i}");
                }
            }
            assert_eq!(tm.bpm_at_time(start + 1.0), 600.0);
            assert_eq!(tm.bpm_at_time(start + 3.0), 30.0);
        }
    }
    // The ramp is cut on its way.
    let mut tm = Line::new(60.0);
    tm.ramp_to_bpm_at_time(600.0, 1e-9, 1.0);
    tm.set_bpm_at_time(90.0, 1.0 + 5e-10);
    for i in 0..20 {
        let t = 1.0 + i as f64 * 5e-11;
        assert!((tm.time_at_beats(tm.beats_at_time(t)) - t).abs() < 1e-6);
    }
}

#[test]
fn shortest_ramps_have_no_slope_that_counts() {
    let mut tm = Line::new(60.0);
    tm.ramp_to_bpm_at_time(120.0, 1e-310, 0.0);
    assert_eq!(tm.beats_at_time(1.0), f64::INFINITY);
}

#[test]
fn times_are_lost_on_ramps_that_are_all_but_level() {
    let mut tm = Line::new(60.0);
    tm.ramp_to_bpm_at_time(60.000001, 1000.0, 0.0);
    let lost = |t: f64| (tm.time_at_beats(tm.beats_at_time(t)) - t).abs();
    assert!((1..1000).any(|i| lost(i as f64) > 1e-6));
}

#[test]
fn times_come_back_on_a_ramp_that_is_cut_again_and_again() {
    let mut tm = Line::new(60.0);
    tm.ramp_to_bpm_at_time(600.0, 20.0, 1.0);
    for i in 0..10 {
        tm.set_bpm_at_time(90.0, 20.0 - i as f64 * 1.7);
        comes_back(&tm, 25.0);
    }
    assert!((tm.bpm_at_time(3.0) - 114.0).abs() < 1e-9);
}

//! The voices of the pieces, act by act.
use rust_timing_lib::context::Ctx;
use rust_timing_lib::demo::act::{note_off, note_on, Act, Line};
use rust_timing_lib::demo::args::{barrier_name, command, piece_config, Command};
use rust_timing_lib::demo::cast::{ending, leader, member, Ending, Role};
use rust_timing_lib::demo::chords::{
    low_note, passing_tones, run_chord_memory, EmbellishVoice, HarmonyVoice, RootVoice,
};
use rust_timing_lib::demo::conductor::{
    bpm_of, run_conductor, set_opening, Conductor, Knob, Performer,
};
use rust_timing_lib::demo::energy::{
    first_energy, modulate, run_shared_energy, velocity, Bass, Bursts, Modulator,
};
use rust_timing_lib::demo::messages::{run_message_queue, scale, AgentMessage, Consumer, Producer};
use rust_timing_lib::demo::pattern::{
    chord_cleanup, chord_voice, phrase_voice, polyrhythm_voice, run_barrier_sync,
    run_cancellation, run_metronome, run_polyrhythm, Edition, Script,
};
use rust_timing_lib::demo::phrases::{run_call_response, Call, Caller, Responder};
use rust_timing_lib::demo::values::{Messages, Notes, Numbers};
use rust_timing_lib::demo::solo::{run_generative, run_tempo_ramp};
use rust_timing_lib::demo::vote::{count, run_collective_vote, winner, Ballot, Voter};
use rust_timing_lib::flt::Flt;
use rust_timing_lib::scheduler::SchedulerMode;
use rust_timing_lib::world::World;

fn f(x: f64) -> Flt {
    Flt::from_bits(x.to_bits())
}

fn g(x: Flt) -> f64 {
    f64::from_bits(x.to_bits())
}

fn beats(x: f64) -> Act {
    Act::Beats(f(x))
}

fn on(note: u8, velocity: u8) -> Act {
    Act::On { note, velocity }
}

fn off(note: u8) -> Act {
    Act::Off { note }
}

fn say(l: Line) -> Act {
    Act::Say(l)
}

/// Two worlds with the same root: one for a voice, one to draw along.
fn twins(seed: &str) -> (World, Ctx, World, Ctx) {
    let mut a = World::new(SchedulerMode::Offline);
    let c = Ctx::new_root(&mut a, f(60.0), seed);
    let mut b = World::new(SchedulerMode::Offline);
    let d = Ctx::new_root(&mut b, f(60.0), seed);
    (a, c, b, d)
}

fn acts(s: &mut Script, n: usize) -> Vec<Act> {
    (0..n).map(|_| s.next(true)).collect()
}

const SCALE: [u8; 8] = [60, 62, 64, 65, 67, 69, 71, 72];

#[test]
fn note_messages_have_their_status_bytes() {
    assert_eq!(note_on(60, 100), [0x90, 60, 100]);
    assert_eq!(note_off(60), [0x80, 60, 0]);
}

#[test]
fn metronome_clicks_in_bars() {
    let mut m = run_metronome(Edition::Plain);
    assert_eq!(m.next(true), on(76, 120));
    assert_eq!(m.next(true), beats(0.05));
    assert_eq!(m.next(true), off(76));
    assert_eq!(m.next(true), beats(0.95));
    assert_eq!(m.next(true), on(72, 90));
    let mut m = run_metronome(Edition::Brief);
    m.next(true);
    assert_eq!(m.next(true), Act::Secs(f(0.05)));
    m.next(true);
    assert_eq!(m.next(true), Act::Secs(f(0.45)));
    let mut m = run_metronome(Edition::Plain);
    let all: Vec<Act> = (0..200).map(|_| m.next(true)).collect();
    assert_eq!(all.iter().filter(|a| matches!(a, Act::On { .. })).count(), 32);
    assert_eq!(all.iter().filter(|a| matches!(a, Act::Off { .. })).count(), 32);
    assert_eq!(all.iter().filter(|a| matches!(a, Act::Say(Line::Bar(_)))).count(), 8);
    assert!(all.contains(&say(Line::Finished)));
    assert_eq!(all[199], Act::Stop);
}

#[test]
fn metronome_stops_when_told() {
    let mut m = run_metronome(Edition::Plain);
    for _ in 0..16 {
        m.next(true);
    }
    let rest: Vec<Act> = (0..6).map(|_| m.next(false)).collect();
    assert!(!rest.iter().any(|a| matches!(a, Act::On { .. })));
    assert_eq!(rest[5], Act::Stop);
}

#[test]
fn polyrhythm_is_three_against_four() {
    let mut s = run_polyrhythm();
    assert_eq!(
        acts(&mut s, 5),
        vec![Act::Fork(0), Act::Fork(1), beats(32.0), say(Line::Finished), Act::Stop]
    );
    let mut v = polyrhythm_voice(Edition::Plain, true);
    assert_eq!(v.next(true), on(60, 100));
    assert_eq!(v.next(true), beats(0.1));
    assert_eq!(v.next(true), off(60));
    assert_eq!(v.next(true), beats(4.0 / 3.0 - 0.1));
    let mut v = polyrhythm_voice(Edition::Plain, false);
    assert_eq!(v.next(true), on(72, 80));
    v.next(true);
    v.next(true);
    assert_eq!(v.next(true), beats(1.0 - 0.08));
}

#[test]
fn phrases_meet_at_a_barrier() {
    let mut s = run_barrier_sync(Edition::Plain);
    assert_eq!(
        acts(&mut s, 8),
        vec![
            say(Line::Phrase(1)),
            Act::StartBarrier,
            Act::Fork(0),
            Act::Fork(1),
            beats(4.5),
            Act::ResolveBarrier,
            say(Line::Resolved),
            Act::Cancel(0),
        ]
    );
    assert_eq!(s.next(true), say(Line::Phrase(2)));
    let mut v = phrase_voice(Edition::Plain, false);
    let played: Vec<Act> = (0..20).map(|_| v.next(true)).collect();
    assert_eq!(played[0], on(60, 100));
    assert!(played.contains(&Act::AwaitBarrier));
    let mut v = phrase_voice(Edition::Plain, true);
    assert_eq!(v.next(true), on(72, 80));
    assert_eq!(v.next(true), beats(4.0 / 5.0 * 0.8));
}

#[test]
fn cancelled_chord_is_cleaned_up() {
    let mut s = run_cancellation(Edition::Plain);
    let a = acts(&mut s, 12);
    assert_eq!(a[1], Act::Fork(0));
    assert_eq!(a[2], beats(4.0));
    assert_eq!(a[4], Act::Cancel(0));
    assert_eq!(a[11], Act::Stop);
    let mut c = chord_voice();
    let started: Vec<u8> = acts(&mut c, 4)
        .iter()
        .map(|a| match a {
            Act::On { note, .. } => *note,
            _ => panic!("a note starts"),
        })
        .collect();
    let ended: Vec<u8> = chord_cleanup()
        .iter()
        .map(|a| match a {
            Act::Off { note } => *note,
            _ => panic!("a note ends"),
        })
        .collect();
    assert_eq!(started, ended);
}

#[test]
fn tempo_ramp_counts_its_beats() {
    let mut r = run_tempo_ramp(Edition::Plain);
    assert_eq!(r.next(true, f(0.0)), Act::Ramp { bpm: f(180.0), secs: f(8.0) });
    assert_eq!(r.next(true, f(0.0)), say(Line::Beat(0)));
    assert_eq!(r.next(true, f(0.0)), on(69, 100));
    assert_eq!(r.next(true, f(0.0)), beats(0.1));
    assert_eq!(r.next(true, f(0.0)), off(69));
    assert_eq!(r.next(true, f(0.0)), beats(0.9));
    assert_eq!(r.next(true, f(8.5)), say(Line::BeatsPlayed(1)));
    assert_eq!(r.next(true, f(8.5)), Act::Stop);
    let mut r = run_tempo_ramp(Edition::Terse);
    r.next(true, f(0.0));
    assert_eq!(r.next(true, f(8.5)), say(Line::Beat(0)));
}

#[test]
fn melody_follows_its_seed() {
    let (mut w, c, mut v, d) = twins("generative_melody_42");
    let scale = [60u8, 62, 64, 67, 69, 72, 74, 76, 79, 81];
    let lengths = [0.5, 1.0, 1.5, 2.0];
    let mut m = run_generative(Edition::Plain);
    for _ in 0..16 {
        let note = scale[(g(d.random(&mut v)) * 10.0) as usize];
        let length = lengths[(g(d.random(&mut v)) * 4.0) as usize];
        assert_eq!(m.next(&mut w, &c, true), say(Line::Picked(note, f(length))));
        assert_eq!(m.next(&mut w, &c, true), on(note, 90));
        assert_eq!(m.next(&mut w, &c, true), beats(length * 0.9));
        assert_eq!(m.next(&mut w, &c, true), off(note));
        assert_eq!(m.next(&mut w, &c, true), beats(length * 0.1));
    }
    assert_eq!(m.next(&mut w, &c, true), say(Line::Finished));
    assert_eq!(m.next(&mut w, &c, true), Act::Stop);
}

#[test]
fn energy_goes_up_and_down() {
    let mut e = g(first_energy());
    assert_eq!(e, 0.3);
    let mut up = true;
    let mut shared = first_energy();
    let mut m = Modulator::new();
    for _ in 0..200 {
        let (x, u) = modulate(f(e), up);
        if up {
            e = (e + 0.05).min(1.0);
            up = !(e >= 1.0);
        } else {
            e = (e - 0.03).max(0.1);
            up = e <= 0.1;
        }
        assert_eq!((g(x), u), (e, up));
        assert_eq!(m.next(true, &mut shared), beats(0.5));
        assert_eq!(g(shared), e);
        assert!((0.1..=1.0).contains(&e));
    }
    assert_eq!(m.next(false, &mut shared), Act::Stop);
}

#[test]
fn bass_is_louder_with_energy() {
    assert_eq!(velocity(40, 80, f(0.3)), (40.0 + 0.3 * 80.0) as u8);
    assert_eq!(velocity(50, 70, f(1.0)), 120);
    let mut b = Bass::new();
    assert_eq!(b.next(true, f(0.5)), on(36, 80));
    assert_eq!(b.next(true, f(0.5)), beats(1.8));
    assert_eq!(b.next(true, f(0.5)), off(36));
    assert_eq!(b.next(true, f(0.5)), beats(0.2));
    assert_eq!(b.next(true, f(1.0)), on(38, 120));
}

#[test]
fn bursts_grow_with_energy() {
    let (mut w, c, mut v, d) = twins("shared_energy");
    let mut b = Bursts::new();
    let mut e = f(0.5);
    // Two notes, and two more with half of the energy.
    for _ in 0..4 {
        let note = SCALE[(g(d.random(&mut v)) * 8.0) as usize];
        assert_eq!(b.next(&mut w, &c, true, &mut e), on(note, 85));
        assert_eq!(b.next(&mut w, &c, true, &mut e), beats(0.2));
        assert_eq!(b.next(&mut w, &c, true, &mut e), off(note));
        assert_eq!(b.next(&mut w, &c, true, &mut e), beats(0.1));
    }
    assert_eq!(b.next(&mut w, &c, true, &mut e), beats(0.5));
    assert_eq!(g(e), 0.52);
    assert_eq!(b.next(&mut w, &c, false, &mut e), Act::Stop);
}

#[test]
fn energy_is_printed_twenty_times() {
    let mut s = run_shared_energy();
    let all: Vec<Act> = (0..60).map(|_| s.next(true, f(0.25))).collect();
    assert_eq!(all[..3], [Act::Fork(0), Act::Fork(1), Act::Fork(2)]);
    assert_eq!(all.iter().filter(|a| **a == say(Line::Energy(f(0.25)))).count(), 20);
    assert_eq!(all.iter().filter(|a| **a == beats(1.0)).count(), 20);
    assert_eq!(all.iter().filter(|a| **a == say(Line::Finished)).count(), 1);
}

#[test]
fn roots_replace_the_chord() {
    let mut n = Notes::new();
    n.add(99);
    let mut r = RootVoice::new();
    assert_eq!(r.next(true, &mut n), on(48, 90));
    assert!(n.contains(48) && n.contains(60) && n.len() == 2);
    assert_eq!(r.next(true, &mut n), say(Line::Root(48)));
    assert_eq!(r.next(true, &mut n), beats(3.8));
    assert_eq!(r.next(true, &mut n), off(48));
    assert_eq!(r.next(true, &mut n), beats(0.2));
    assert_eq!(r.next(true, &mut n), on(50, 90));
    assert!(n.contains(50) && n.contains(62) && !n.contains(48));
}

#[test]
fn harmony_adds_a_third_and_a_fifth() {
    let mut n = Notes::new();
    n.add(48);
    n.add(60);
    assert_eq!(low_note(&n), Some(48));
    let mut h = HarmonyVoice::new();
    assert_eq!(h.next(true, &mut n), beats(0.5));
    assert_eq!(h.next(true, &mut n), on(64, 70));
    assert_eq!(h.next(true, &mut n), on(67, 70));
    assert!(n.contains(64) && n.contains(67));
    assert_eq!(h.next(true, &mut n), beats(2.5));
    assert_eq!(h.next(true, &mut n), off(64));
    assert_eq!(h.next(true, &mut n), off(67));
    assert!(!n.contains(64) && !n.contains(67));
    assert_eq!(h.next(true, &mut n), beats(1.5));
    n.clear();
    assert_eq!(h.next(true, &mut n), beats(0.5));
    assert_eq!(h.next(false, &mut n), Act::Stop);
}

#[test]
fn passing_tones_avoid_what_sounds() {
    let mut n = Notes::new();
    n.add(48);
    n.add(64);
    let tones = passing_tones(&n);
    let expected: Vec<u8> = (60..84).filter(|x| x % 12 != 0 && x % 12 != 4).collect();
    assert_eq!(tones, expected);
    let (mut w, c, mut v, d) = twins("chord_memory");
    let mut e = EmbellishVoice::new();
    assert_eq!(e.next(&mut w, &c, true, &n), beats(1.0));
    let note = expected[(g(d.random(&mut v)) * expected.len() as f64) as usize];
    assert_eq!(e.next(&mut w, &c, true, &n), on(note, 50));
    assert_eq!(e.next(&mut w, &c, true, &n), beats(0.15));
    assert_eq!(e.next(&mut w, &c, true, &n), off(note));
    assert_eq!(e.next(&mut w, &c, true, &n), beats(0.35));
    for k in 0..12 {
        n.add(k);
    }
    assert!(passing_tones(&n).is_empty());
    assert_eq!(e.next(&mut w, &c, true, &n), beats(0.35));
    assert_eq!(acts(&mut run_chord_memory(), 4)[3], beats(20.0));
}

#[test]
fn producer_sends_by_the_beat() {
    assert_eq!(scale(0), vec![60, 62, 64, 65, 67, 69, 71]);
    assert_eq!(scale(1), vec![60, 62, 63, 65, 67, 68, 70]);
    assert_eq!(scale(2), vec![60, 62, 64, 66, 67, 69, 71]);
    let (mut w, c, mut v, d) = twins("message_queue");
    let mut p = Producer::new();
    let mut q: Messages<AgentMessage> = Messages::new();
    let mut which = 0;
    for beat in 0..32u64 {
        if beat > 0 && beat % 8 == 0 {
            which = (which + 1) % 3;
            assert_eq!(p.next(&mut w, &c, true, &mut q), say(Line::ScaleChanges));
            match q.pop() {
                Some(AgentMessage::ChangeScale(s)) => assert_eq!(s, scale(which)),
                other => panic!("{other:?}"),
            }
        }
        assert_eq!(p.next(&mut w, &c, true, &mut q), beats(0.5));
        if beat % 4 == 0 {
            assert!(matches!(q.pop(), Some(AgentMessage::Accent)));
        }
        if g(d.random(&mut v)) < 0.2 {
            assert!(matches!(q.pop(), Some(AgentMessage::Rest)));
        } else {
            let n = scale(which)[(g(d.random(&mut v)) * 7.0) as usize];
            match q.pop() {
                Some(AgentMessage::NoteEvent { note, velocity: 80 }) => assert_eq!(note, n),
                other => panic!("{other:?}"),
            }
        }
        assert!(q.is_empty());
    }
    assert_eq!(p.next(&mut w, &c, false, &mut q), Act::Stop);
    assert_eq!(acts(&mut run_message_queue(), 3)[2], beats(16.0));
}

#[test]
fn consumer_plays_by_the_messages() {
    let mut q: Messages<AgentMessage> = Messages::new();
    let mut c = Consumer::new();
    assert_eq!(c.next(true, &mut q), beats(0.1));
    q.push(AgentMessage::Accent);
    q.push(AgentMessage::NoteEvent { note: 60, velocity: 80 });
    q.push(AgentMessage::Rest);
    q.push(AgentMessage::NoteEvent { note: 61, velocity: 80 });
    q.push(AgentMessage::NoteEvent { note: 62, velocity: 100 });
    q.push(AgentMessage::Accent);
    q.push(AgentMessage::NoteEvent { note: 63, velocity: 100 });
    q.push(AgentMessage::ChangeScale(vec![1, 2]));
    assert_eq!(c.next(true, &mut q), say(Line::Accent));
    assert_eq!(c.next(true, &mut q), on(60, 120));
    assert_eq!(c.next(true, &mut q), beats(0.4));
    assert_eq!(c.next(true, &mut q), off(60));
    // The note after the rest is left out.
    assert_eq!(c.next(true, &mut q), on(62, 100));
    c.next(true, &mut q);
    c.next(true, &mut q);
    assert_eq!(c.next(true, &mut q), say(Line::Accent));
    assert_eq!(c.next(true, &mut q), on(63, 127));
    c.next(true, &mut q);
    c.next(true, &mut q);
    assert_eq!(c.next(true, &mut q), say(Line::ScaleHeard));
    assert_eq!(*c.scale(), vec![1, 2]);
    assert_eq!(c.next(false, &mut q), beats(0.1));
    assert_eq!(c.next(false, &mut q), Act::Stop);
}

#[test]
fn call_is_answered_an_octave_up() {
    let (mut w, c, mut v, d) = twins("call_response");
    let mut call = Call::new();
    let mut caller = Caller::new();
    let mut resp = Responder::new();
    assert_eq!(resp.next(&mut w, &c, true, &mut call), beats(0.1));
    let n = 3 + (g(d.random(&mut v)) * 3.0) as usize;
    assert_eq!(caller.next(&mut w, &c, true, &mut call), say(Line::Calling));
    let mut phrase = Vec::new();
    for _ in 0..n {
        let note = SCALE[(g(d.random(&mut v)) * 8.0) as usize];
        let time = 0.25 + g(d.random(&mut v)) * 0.5;
        phrase.push((note, time));
        assert_eq!(caller.next(&mut w, &c, true, &mut call), on(note, 100));
        assert_eq!(caller.next(&mut w, &c, true, &mut call), beats(time * 0.9));
        assert_eq!(caller.next(&mut w, &c, true, &mut call), off(note));
        assert_eq!(caller.next(&mut w, &c, true, &mut call), beats(time * 0.1));
        assert!(!call.ready);
    }
    assert_eq!(caller.next(&mut w, &c, true, &mut call), beats(4.0));
    assert!(call.ready);
    assert_eq!(call.phrase.len(), n);
    assert_eq!(resp.next(&mut w, &c, true, &mut call), say(Line::Responding));
    assert!(!call.ready);
    for (note, time) in phrase {
        let varied = time * (0.8 + g(d.random(&mut v)) * 0.4);
        assert_eq!(resp.next(&mut w, &c, true, &mut call), on(note + 12, 80));
        assert_eq!(resp.next(&mut w, &c, true, &mut call), beats(varied * 0.9));
        assert_eq!(resp.next(&mut w, &c, true, &mut call), off(note + 12));
        assert_eq!(resp.next(&mut w, &c, true, &mut call), beats(varied * 0.1));
    }
    assert_eq!(resp.next(&mut w, &c, true, &mut call), beats(1.0));
    assert_eq!(resp.next(&mut w, &c, false, &mut call), Act::Stop);
    // A phrase without notes is passed over.
    call.phrase.clear();
    call.ready = true;
    assert_eq!(resp.next(&mut w, &c, true, &mut call), beats(0.1));
    assert!(!call.ready);
    assert_eq!(acts(&mut run_call_response(), 3)[2], beats(24.0));
}

#[test]
fn majority_wins_the_vote() {
    let votes = vec![60, 64, 60, 72, 60];
    assert_eq!(count(&votes, 60), 3);
    assert_eq!(winner(&votes), Some(60));
    assert_eq!(winner(&Vec::new()), None);
    let tie = vec![60, 64];
    assert!(matches!(winner(&tie), Some(60) | Some(64)));
}

#[test]
fn voters_vote_in_their_range() {
    let (mut w, c, mut v, d) = twins("collective_vote");
    let mut b = Ballot::new();
    for (id, low, n) in [(0u64, 0usize, 3.0), (1, 3, 2.0), (2, 5, 3.0)] {
        assert_eq!(Voter { id }.next(&mut w, &c, true, &mut b), beats(0.5));
        let vote = SCALE[low + (g(d.random(&mut v)) * n) as usize];
        assert_eq!(b.votes.last(), Some(&vote));
    }
    b.open = false;
    Voter { id: 0 }.next(&mut w, &c, true, &mut b);
    assert_eq!(b.votes.len(), 3);
    assert_eq!(Voter { id: 0 }.next(&mut w, &c, false, &mut b), Act::Stop);
}

#[test]
fn vote_runs_in_rounds() {
    let mut b = Ballot::new();
    let mut s = run_collective_vote();
    assert_eq!(s.next(true, &mut b), Act::Fork(0));
    assert_eq!(s.next(true, &mut b), Act::Fork(1));
    assert_eq!(s.next(true, &mut b), Act::Fork(2));
    b.votes.push(9);
    assert_eq!(s.next(true, &mut b), beats(0.5));
    assert!(b.open && b.votes.is_empty());
    // A round without votes is passed over.
    assert_eq!(s.next(true, &mut b), beats(0.5));
    b.votes = vec![62, 60, 62];
    assert_eq!(s.next(true, &mut b), say(Line::Winner(2, 62)));
    assert!(!b.open);
    assert_eq!(s.next(true, &mut b), on(62, 100));
    assert_eq!(s.next(true, &mut b), beats(1.3));
    assert_eq!(s.next(true, &mut b), off(62));
    assert_eq!(s.next(true, &mut b), beats(0.2));
    for _ in 2..16 {
        assert_eq!(s.next(true, &mut b), beats(0.5));
    }
    assert_eq!(s.next(true, &mut b), say(Line::Finished));
    assert_eq!(s.next(true, &mut b), Act::Stop);
}

#[test]
fn conductor_goes_through_its_phases() {
    let mut p = Numbers::new();
    set_opening(&mut p, Edition::Plain);
    for (k, x) in [("dynamics", 0.5), ("density", 0.5), ("register", 0.5), ("performer_2", 1.0)] {
        assert_eq!(p.get(k), Some(f(x)));
    }
    let mut c = Conductor::new(Edition::Plain);
    assert_eq!(c.next(true, &mut p), say(Line::Phase(0)));
    assert_eq!(p.get("dynamics"), Some(f(0.3)));
    assert_eq!(p.get("performer_3"), Some(f(0.0)));
    assert_eq!(c.next(true, &mut p), Act::Tempo(f(80.0)));
    assert_eq!(c.next(true, &mut p), say(Line::TempoSet(f(80.0))));
    assert_eq!(c.next(true, &mut p), beats(8.0));
    for phase in 1..4u64 {
        assert_eq!(c.next(true, &mut p), say(Line::Phase(phase)));
        assert_eq!(c.next(true, &mut p), Act::Tempo(f(80.0 + phase as f64 * 20.0)));
        c.next(true, &mut p);
        c.next(true, &mut p);
    }
    assert_eq!(p.get("register"), Some(f(0.3)));
    assert_eq!(p.get("performer_1"), Some(f(0.0)));
    assert_eq!(p.get("performer_3"), Some(f(1.0)));
    assert_eq!(c.next(false, &mut p), Act::Stop);
    assert_eq!(p.get("performer_1"), Some(f(1.0)));
    assert_eq!(p.get("register"), Some(f(0.5)));
    assert_eq!(g(bpm_of(3)), 140.0);
    assert_eq!(Knob::Performer(12).name(Edition::Terse), "p12");
    assert_eq!(Knob::Density.name(Edition::Terse), "den");
    assert_eq!(acts(&mut run_conductor(), 5)[4], beats(35.0));
}

#[test]
fn performers_follow_the_conductor() {
    let (mut w, c, mut v, d) = twins("conductor");
    let mut p = Numbers::new();
    set_opening(&mut p, Edition::Brief);
    p.set("performer_1", f(0.0));
    p.set("dynamics", f(1.0));
    p.set("density", f(1.0));
    p.set("register", f(0.8));
    let mut one = Performer::new(Edition::Brief, 0);
    assert_eq!(one.next(&mut w, &c, true, &p), beats(0.5));
    let mut two = Performer::new(Edition::Brief, 1);
    d.random(&mut v);
    let note = 60 + (0.8f64 * 12.0) as u8 + (g(d.random(&mut v)) * 7.0) as u8;
    assert_eq!(two.next(&mut w, &c, true, &p), on(note, 120));
    assert_eq!(two.next(&mut w, &c, true, &p), beats(0.4));
    assert_eq!(two.next(&mut w, &c, true, &p), off(note));
    assert_eq!(two.next(&mut w, &c, true, &p), beats(0.1));
    p.set("density", f(-1.0));
    assert_eq!(two.next(&mut w, &c, true, &p), beats(0.5));
    assert_eq!(two.next(&mut w, &c, false, &p), Act::Stop);
    // The tersest program takes what is not set for 0.
    let empty = Numbers::new();
    let mut terse = Performer::new(Edition::Terse, 2);
    assert_eq!(terse.next(&mut w, &c, true, &empty), beats(0.5));
}

fn asked(e: Edition, args: &[&str]) -> Command {
    let v: Vec<String> = args.iter().map(|s| s.to_string()).collect();
    command(e, &v)
}

#[test]
fn arguments_name_a_device_and_a_piece() {
    let plain = Edition::Plain;
    assert_eq!(
        asked(plain, &["x", "--device", "2", "--test", "6"]),
        Command::Play { device: 2, piece: 6 }
    );
    assert_eq!(
        asked(plain, &["x", "-t", "+1", "noise", "-d", "0"]),
        Command::Play { device: 0, piece: 1 }
    );
    assert_eq!(asked(plain, &["x", "-l", "-d", "2"]), Command::List);
    assert_eq!(asked(plain, &["x", "-l", "--help"]), Command::Help);
    assert_eq!(asked(plain, &["x"]), Command::NoDevice);
    assert_eq!(asked(plain, &["x", "-d", "two", "-t", "1"]), Command::NoDevice);
    assert_eq!(asked(plain, &["x", "-d", "1"]), Command::NoPiece);
    assert_eq!(asked(plain, &["x", "-d", "1", "-t", "7"]), Command::BadPiece(7));
    assert_eq!(asked(plain, &["x", "-d", "1", "-t", "0"]), Command::BadPiece(0));
    assert_eq!(
        asked(Edition::Brief, &["x", "-d", "1", "-t", "12"]),
        Command::Play { device: 1, piece: 12 }
    );
    // An option without its number keeps the one before, or forgets it.
    assert_eq!(
        asked(plain, &["x", "-d", "1", "-t", "2", "-t"]),
        Command::Play { device: 1, piece: 2 }
    );
    assert_eq!(asked(Edition::Terse, &["x", "-d", "1", "-t", "2", "-t"]), Command::NoPiece);
    assert_eq!(
        asked(Edition::Terse, &["x", "-h", "-d", "1", "-t", "99"]),
        Command::Play { device: 1, piece: 99 }
    );
    assert_eq!(
        asked(plain, &["x", "-d", "99999999999999999999999", "-t", "1"]),
        Command::NoDevice
    );
}

#[test]
fn pieces_have_their_tempo_and_seed() {
    let c = piece_config(Edition::Plain, 5).unwrap();
    assert_eq!((g(c.bpm), c.seed.as_str()), (100.0, "generative_melody_42"));
    let c = piece_config(Edition::Terse, 12).unwrap();
    assert_eq!((g(c.bpm), c.seed.as_str()), (100.0, "cond"));
    let c = piece_config(Edition::Brief, 9).unwrap();
    assert_eq!((g(c.bpm), c.seed.as_str()), (110.0, "message_queue"));
    assert_eq!((g(c.fps), g(c.rate)), (60.0, 1.0));
    assert!(piece_config(Edition::Plain, 7).is_none());
    assert!(piece_config(Edition::Brief, 0).is_none());
    assert_eq!(barrier_name(Edition::Terse), "sync");
    assert_eq!(barrier_name(Edition::Plain), "phrase_sync");
}

#[test]
fn some_scripts_start_unasked() {
    let mut s = run_cancellation(Edition::Plain);
    assert_eq!(s.next(false), say(Line::ChordStarts));
    assert_eq!(s.next(false), Act::Fork(0));
    let mut s = run_polyrhythm();
    assert_eq!(s.next(false), Act::Fork(0));
    let mut s = run_barrier_sync(Edition::Plain);
    assert_eq!(s.next(false), say(Line::Finished));
    let mut m = run_metronome(Edition::Terse);
    assert_eq!(m.next(false), on(76, 120));
    let mut m = run_metronome(Edition::Plain);
    assert_eq!(m.next(false), say(Line::Finished));
}

#[test]
fn numbers_stand_for_the_voices_of_a_piece() {
    assert_eq!(leader(1), Some(Role::Metronome));
    assert_eq!(leader(12), Some(Role::Ensemble));
    assert_eq!(leader(0), None);
    assert_eq!(leader(13), None);
    assert_eq!(member(2, 0), Some(Role::Beat { three: true }));
    assert_eq!(member(4, 1), Some(Role::Phrase { second: true }));
    assert_eq!(member(7, 2), Some(Role::Bursts));
    assert_eq!(member(8, 0), Some(Role::Root));
    assert_eq!(member(11, 2), Some(Role::Voter(2)));
    assert_eq!(member(12, 3), Some(Role::Performer(2)));
    assert_eq!(member(12, 4), None);
    assert_eq!(member(1, 0), None);
}

#[test]
fn pieces_end_each_in_its_way() {
    assert_eq!(ending(Edition::Terse, 5), Ending::Quiet);
    assert_eq!(ending(Edition::Terse, 6), Ending::Quiet);
    assert_eq!(ending(Edition::Plain, 6), Ending::Led);
    assert_eq!(ending(Edition::Plain, 5), Ending::Stopped);
    assert_eq!(ending(Edition::Brief, 1), Ending::Stopped);
}

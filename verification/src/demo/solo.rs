//! Pieces for one voice that decides as it goes.
use vstd::prelude::*;

use crate::context::Ctx;
use crate::demo::act::{Act, Line, Note, Player};
use crate::demo::pattern::Edition;
use crate::demo::pick::pick;
use crate::flt::convert;
use crate::flt::Flt;
use crate::world::{World, WorldView};

verus! {

/// What the voice of the tempo ramp does when no note is being played.
#[derive(Clone, Copy, Debug, PartialEq, Eq, Structural)]
pub enum RampStage {
    /// It starts the ramp.
    Ramp,
    /// It sees whether to play another beat.
    Check,
    /// It plays the beat.
    Play,
    /// It has said how many beats there were.
    Ended,
}

/// A beat played over and over while the tempo goes up.
#[derive(Clone, Copy, Debug, PartialEq, Eq, Structural)]
pub struct TempoRamp {
    /// The program it belongs to.
    pub edition: Edition,
    /// The beats that were played.
    pub count: u64,
    /// What it does next.
    pub stage: RampStage,
    /// The note that is being played.
    pub player: Player,
}

/// The beat of the tempo ramp.
pub open spec fn ramp_note() -> Note {
    Note {
        note: 69,
        velocity: 100,
        hold: convert::ratio_of(1, 10),
        rest: convert::ratio_of(9, 10),
        secs: false,
    }
}

impl TempoRamp {
    /// There is time for another beat: up to 8.5 seconds, and in the tersest
    /// program 8.5 seconds included.
    pub open spec fn in_time(self, time: Flt) -> bool {
        match self.edition {
            Edition::Terse => !convert::ratio_of(85, 10).less(time),
            _ => time.less(convert::ratio_of(85, 10)),
        }
    }

    /// The next act, and the voice after it.
    pub open spec fn after(self, go: bool, time: Flt) -> (TempoRamp, Act) {
        match self.player.sounded() {
            (p, Some(a)) => (TempoRamp { player: p, ..self }, a),
            (p, None) => match self.stage {
                RampStage::Ramp => (
                    TempoRamp { stage: RampStage::Check, ..self },
                    Act::Ramp { bpm: convert::of_nat(180), secs: convert::of_nat(8) },
                ),
                RampStage::Check => if go && self.in_time(time) {
                    (
                        TempoRamp { stage: RampStage::Play, ..self },
                        Act::Say(Line::Beat(self.count)),
                    )
                } else {
                    (
                        TempoRamp { stage: RampStage::Ended, ..self },
                        Act::Say(Line::BeatsPlayed(self.count)),
                    )
                },
                RampStage::Play => (
                    TempoRamp {
                        count: (self.count + 1) as u64,
                        stage: RampStage::Check,
                        player: Player::begun(ramp_note()),
                        ..self
                    },
                    Act::On { note: 69, velocity: 100 },
                ),
                RampStage::Ended => (self, Act::Stop),
            },
        }
    }

    /// Hands out the next act at the voice's time.
    pub fn next(&mut self, go: bool, time: Flt) -> (r: Act)
        requires
            old(self).count < u64::MAX,
        ensures
            *final(self) == old(self).after(go, time).0,
            r == old(self).after(go, time).1,
    {
        match self.player.sound() {
            Some(a) => {
                return a;
            },
            None => {},
        }
        match self.stage {
            RampStage::Ramp => {
                self.stage = RampStage::Check;
                Act::Ramp { bpm: Flt::from_u64(180), secs: Flt::from_u64(8) }
            },
            RampStage::Check => {
                let end: Flt = Flt::ratio(85, 10);
                let in_time: bool = match self.edition {
                    Edition::Terse => !end.lt(time),
                    _ => time.lt(end),
                };
                if go && in_time {
                    self.stage = RampStage::Play;
                    Act::Say(Line::Beat(self.count))
                } else {
                    self.stage = RampStage::Ended;
                    Act::Say(Line::BeatsPlayed(self.count))
                }
            },
            RampStage::Play => {
                self.count = self.count + 1;
                self.stage = RampStage::Check;
                self.player.begin(
                    Note {
                        note: 69,
                        velocity: 100,
                        hold: Flt::ratio(1, 10),
                        rest: Flt::ratio(9, 10),
                        secs: false,
                    },
                )
            },
            RampStage::Ended => Act::Stop,
        }
    }
}

/// The tempo ramp, from 60 to 180 beats a minute in eight seconds.
pub fn run_tempo_ramp(edition: Edition) -> (r: TempoRamp)
    ensures
        r == (TempoRamp { edition, count: 0, stage: RampStage::Ramp, player: Player::quiet() }),
{
    TempoRamp { edition, count: 0, stage: RampStage::Ramp, player: Player::new() }
}

/// The notes of the generated melody: a pentatonic scale.
pub open spec fn pentatonic() -> Seq<u8> {
    seq![60u8, 62u8, 64u8, 67u8, 69u8, 72u8, 74u8, 76u8, 79u8, 81u8]
}

/// The lengths of its notes, in half beats.
pub open spec fn half_beats(i: int) -> Flt {
    convert::ratio_of(i + 1, 2)
}

/// A melody picked by chance.
#[derive(Clone, Copy, Debug)]
pub struct Generative {
    /// The host is asked before each note whether to go on.
    pub asks: bool,
    /// The notes that were picked.
    pub count: u64,
    /// A note that was picked and not started, and how long it lasts.
    pub ready: Option<(u8, Flt)>,
    /// The melody has ended.
    pub ended: bool,
    /// The note that is being played.
    pub player: Player,
}

/// A note of the melody: nine tenths of its length it sounds.
pub open spec fn melody_note(note: u8, length: Flt) -> Note {
    Note {
        note,
        velocity: 90,
        hold: length.times(convert::ratio_of(9, 10)),
        rest: length.times(convert::ratio_of(1, 10)),
        secs: false,
    }
}

impl Generative {
    /// The next act, with the voice and the shared state after it. Of 16
    /// notes each is picked by one draw, and its length by another.
    pub open spec fn after(self, w: WorldView, ctx: u64, go: bool) -> (
        Generative,
        WorldView,
        Act,
    ) {
        match self.player.sounded() {
            (p, Some(a)) => (Generative { player: p, ..self }, w, a),
            (p, None) => match self.ready {
                Some((note, length)) => (
                    Generative {
                        ready: None,
                        player: Player::begun(melody_note(note, length)),
                        ..self
                    },
                    w,
                    Act::On { note, velocity: 90 },
                ),
                None => if self.count < 16 && (!self.asks || go) {
                    let (v, i) = w.picked(ctx, 10);
                    let (u, j) = v.picked(ctx, 4);
                    let note = pentatonic()[i];
                    let length = half_beats(j);
                    (
                        Generative {
                            count: (self.count + 1) as u64,
                            ready: Some((note, length)),
                            ..self
                        },
                        u,
                        Act::Say(Line::Picked(note, length)),
                    )
                } else if self.ended {
                    (self, w, Act::Stop)
                } else {
                    (
                        Generative { count: 16, ended: true, ..self },
                        w,
                        Act::Say(Line::Finished),
                    )
                },
            },
        }
    }

    /// Hands out the next act.
    pub fn next(&mut self, w: &mut World, ctx: &Ctx, go: bool) -> (r: Act)
        requires
            ctx.alive(old(w)),
        ensures
            ctx.alive(final(w)),
            *final(self) == old(self).after(old(w)@, ctx.id, go).0,
            final(w)@ == old(self).after(old(w)@, ctx.id, go).1,
            r == old(self).after(old(w)@, ctx.id, go).2,
    {
        match self.player.sound() {
            Some(a) => {
                return a;
            },
            None => {},
        }
        match self.ready {
            Some((note, length)) => {
                self.ready = None;
                self.player.begin(
                    Note {
                        note,
                        velocity: 90,
                        hold: length.product(Flt::ratio(9, 10)),
                        rest: length.product(Flt::ratio(1, 10)),
                        secs: false,
                    },
                )
            },
            None => {
                if self.count < 16 && (!self.asks || go) {
                    let i: u64 = pick(w, ctx, 10);
                    let j: u64 = pick(w, ctx, 4);
                    let scale: [u8; 10] = [60, 62, 64, 67, 69, 72, 74, 76, 79, 81];
                    assert(scale@ =~= pentatonic());
                    let note: u8 = scale[i as usize];
                    let length: Flt = Flt::ratio(j + 1, 2);
                    self.count = self.count + 1;
                    self.ready = Some((note, length));
                    Act::Say(Line::Picked(note, length))
                } else if self.ended {
                    Act::Stop
                } else {
                    self.count = 16;
                    self.ended = true;
                    Act::Say(Line::Finished)
                }
            },
        }
    }
}

/// A melody picked by chance, before its first note. The tersest program does
/// not ask whether to go on.
pub fn run_generative(e: Edition) -> (r: Generative)
    ensures
        r == (Generative {
            asks: !(e is Terse),
            count: 0,
            ready: None,
            ended: false,
            player: Player::quiet(),
        }),
{
    let asks: bool = match e {
        Edition::Terse => false,
        _ => true,
    };
    Generative { asks, count: 0, ready: None, ended: false, player: Player::new() }
}

} // verus!

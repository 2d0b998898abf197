//! Voices that share a level of energy, which makes them louder and busier.
use vstd::prelude::*;

use crate::context::Ctx;
use crate::demo::act::{Act, Line, Note, Player};
use crate::demo::pick::pick;
use crate::flt::convert;
use crate::flt::order;
use crate::flt::Flt;
use crate::world::{World, WorldView};

verus! {

/// The energy at the start.
pub fn first_energy() -> (r: Flt)
    ensures
        r == convert::ratio_of(3, 10),
{
    Flt::ratio(3, 10)
}

/// The energy one step further up, or down, and the direction from there: up
/// by 0.05 to 1, then down by 0.03 to 0.1, and up again.
pub open spec fn modulated(e: Flt, up: bool) -> (Flt, bool) {
    if up {
        let x = e.plus(convert::ratio_of(5, 100)).smaller(Flt::one());
        (x, !Flt::one().at_most(x))
    } else {
        let x = e.minus(convert::ratio_of(3, 100)).larger(convert::ratio_of(1, 10));
        (x, x.at_most(convert::ratio_of(1, 10)))
    }
}

/// The energy one step further up, or down, and the direction from there.
pub fn modulate(e: Flt, up: bool) -> (r: (Flt, bool))
    ensures
        r == modulated(e, up),
{
    if up {
        let x: Flt = e.sum(Flt::ratio(5, 100)).min(Flt::one());
        (x, !Flt::one().le(x))
    } else {
        let low: Flt = Flt::ratio(1, 10);
        let x: Flt = e.difference(Flt::ratio(3, 100)).max(low);
        (x, x.le(low))
    }
}

/// Moves the energy up and down.
#[derive(Clone, Copy, Debug, PartialEq, Eq, Structural)]
pub struct Modulator {
    /// The energy goes up.
    pub up: bool,
}

impl Modulator {
    /// Upward at first.
    pub fn new() -> (r: Self)
        ensures
            r.up,
    {
        Modulator { up: true }
    }

    /// Moves the energy one step, while the host goes on, every half beat.
    pub fn next(&mut self, go: bool, energy: &mut Flt) -> (r: Act)
        ensures
            go ==> (*final(energy), final(self).up) == modulated(*old(energy), old(self).up),
            !go ==> *final(energy) == *old(energy) && *final(self) == *old(self),
            r == (if go {
                Act::Beats(Flt::half())
            } else {
                Act::Stop
            }),
    {
        if !go {
            return Act::Stop;
        }
        let (e, up) = modulate(*energy, self.up);
        *energy = e;
        self.up = up;
        Act::Beats(Flt::half())
    }
}

/// The bass, louder with the energy.
#[derive(Clone, Copy, Debug, PartialEq, Eq, Structural)]
pub struct Bass {
    /// The notes that have started.
    pub count: u64,
    /// The note that is being played.
    pub player: Player,
}

/// The notes of the bass.
pub open spec fn bass_notes() -> Seq<u8> {
    seq![36u8, 38u8, 40u8, 41u8]
}

/// How loud a voice is: from `low`, up by `range` with full energy.
pub open spec fn loudness(low: int, range: int, energy: Flt) -> u8 {
    convert::of_nat(low).plus(energy.times(convert::of_nat(range))).byte() as u8
}

/// How loud a voice is.
pub fn velocity(low: u64, range: u64, energy: Flt) -> (r: u8)
    ensures
        r == loudness(low as int, range as int, energy),
{
    Flt::from_u64(low).sum(energy.product(Flt::from_u64(range))).trunc_u8()
}

impl Bass {
    /// Before its first note.
    pub fn new() -> (r: Self)
        ensures
            r == (Bass { count: 0, player: Player::quiet() }),
    {
        Bass { count: 0, player: Player::new() }
    }

    /// The next note.
    pub open spec fn upcoming(self, energy: Flt) -> Note {
        Note {
            note: bass_notes()[self.count as int % 4],
            velocity: loudness(40, 80, energy),
            hold: convert::ratio_of(18, 10),
            rest: convert::ratio_of(2, 10),
            secs: false,
        }
    }

    /// The next act, and the voice after it.
    pub open spec fn after(self, go: bool, energy: Flt) -> (Bass, Act) {
        match self.player.sounded() {
            (p, Some(a)) => (Bass { player: p, ..self }, a),
            (p, None) => if go {
                let n = self.upcoming(energy);
                (
                    Bass { count: (self.count + 1) as u64, player: Player::begun(n) },
                    Act::On { note: n.note, velocity: n.velocity },
                )
            } else {
                (self, Act::Stop)
            },
        }
    }

    /// Hands out the next act.
    pub fn next(&mut self, go: bool, energy: Flt) -> (r: Act)
        requires
            old(self).count < u64::MAX,
        ensures
            *final(self) == old(self).after(go, energy).0,
            r == old(self).after(go, energy).1,
    {
        match self.player.sound() {
            Some(a) => {
                return a;
            },
            None => {},
        }
        if !go {
            return Act::Stop;
        }
        let notes: [u8; 4] = [36, 38, 40, 41];
        assert(notes@ =~= bass_notes());
        let i: u64 = self.count % 4;
        let note: u8 = notes[i as usize];
        self.count = self.count + 1;
        self.player.begin(
            Note {
                note,
                velocity: velocity(40, 80, energy),
                hold: Flt::ratio(18, 10),
                rest: Flt::ratio(2, 10),
                secs: false,
            },
        )
    }
}

/// The melody: bursts of notes picked by chance, louder and longer with the
/// energy, each of which adds to it.
#[derive(Clone, Copy, Debug, PartialEq, Eq, Structural)]
pub struct Bursts {
    /// A burst is under way.
    pub playing: bool,
    /// The notes of the burst that are left.
    pub left: u64,
    /// How loud the burst is.
    pub velocity: u8,
    /// The note that is being played.
    pub player: Player,
}

/// The scale of the melody.
pub open spec fn major() -> Seq<u8> {
    seq![60u8, 62u8, 64u8, 65u8, 67u8, 69u8, 71u8, 72u8]
}

/// The note of the scale with that number.
pub fn major_note(i: u64) -> (r: u8)
    requires
        i < 8,
    ensures
        r == major()[i as int],
{
    let scale: [u8; 8] = [60, 62, 64, 65, 67, 69, 71, 72];
    assert(scale@ =~= major());
    scale[i as usize]
}

impl Bursts {
    /// Before the first burst.
    pub fn new() -> (r: Self)
        ensures
            r == (Bursts { playing: false, left: 0, velocity: 0, player: Player::quiet() }),
    {
        Bursts { playing: false, left: 0, velocity: 0, player: Player::new() }
    }

    /// How a burst starts with that energy: two notes, and four more with
    /// full energy.
    pub open spec fn burst(self, energy: Flt) -> Bursts {
        Bursts {
            playing: true,
            left: Flt::two().plus(energy.times(convert::of_nat(4))).whole() as u64,
            velocity: loudness(50, 70, energy),
            ..self
        }
    }

    /// The next act, with the voice, the shared state and the energy after
    /// it.
    pub open spec fn after(self, w: WorldView, ctx: u64, go: bool, energy: Flt) -> (
        Bursts,
        WorldView,
        Flt,
        Act,
    ) {
        match self.player.sounded() {
            (p, Some(a)) => (Bursts { player: p, ..self }, w, energy, a),
            (p, None) => if !self.playing && !go {
                (self, w, energy, Act::Stop)
            } else {
                let s = if self.playing {
                    self
                } else {
                    self.burst(energy)
                };
                if s.left > 0 {
                    let (v, i) = w.picked(ctx, 8);
                    let n = Note {
                        note: major()[i],
                        velocity: s.velocity,
                        hold: convert::ratio_of(2, 10),
                        rest: convert::ratio_of(1, 10),
                        secs: false,
                    };
                    (
                        Bursts { left: (s.left - 1) as u64, player: Player::begun(n), ..s },
                        v,
                        energy,
                        Act::On { note: n.note, velocity: n.velocity },
                    )
                } else {
                    (
                        Bursts { playing: false, ..s },
                        w,
                        energy.plus(convert::ratio_of(2, 100)).smaller(Flt::one()),
                        Act::Beats(Flt::half()),
                    )
                }
            },
        }
    }

    /// Hands out the next act.
    pub fn next(&mut self, w: &mut World, ctx: &Ctx, go: bool, energy: &mut Flt) -> (r: Act)
        requires
            ctx.alive(old(w)),
        ensures
            ctx.alive(final(w)),
            *final(self) == old(self).after(old(w)@, ctx.id, go, *old(energy)).0,
            final(w)@ == old(self).after(old(w)@, ctx.id, go, *old(energy)).1,
            *final(energy) == old(self).after(old(w)@, ctx.id, go, *old(energy)).2,
            r == old(self).after(old(w)@, ctx.id, go, *old(energy)).3,
    {
        match self.player.sound() {
            Some(a) => {
                return a;
            },
            None => {},
        }
        if !self.playing {
            if !go {
                return Act::Stop;
            }
            let e: Flt = *energy;
            self.playing = true;
            self.left = Flt::two().sum(e.product(Flt::from_u64(4))).trunc_u64();
            self.velocity = velocity(50, 70, e);
        }
        if self.left > 0 {
            let i: u64 = pick(w, ctx, 8);
            self.left = self.left - 1;
            self.player.begin(
                Note {
                    note: major_note(i),
                    velocity: self.velocity,
                    hold: Flt::ratio(2, 10),
                    rest: Flt::ratio(1, 10),
                    secs: false,
                },
            )
        } else {
            self.playing = false;
            let e: Flt = *energy;
            *energy = e.sum(Flt::ratio(2, 100)).min(Flt::one());
            Act::Beats(Flt::half())
        }
    }
}

/// The voice that starts the others and prints the energy, every beat, 20
/// times.
#[derive(Clone, Copy, Debug, PartialEq, Eq, Structural)]
pub struct SharedEnergy {
    /// The acts that were handed out.
    pub at: u64,
    /// The last line was printed.
    pub ended: bool,
}

impl SharedEnergy {
    /// The next act, and the voice after it: three voices start, then the
    /// energy is printed 20 times, as long as the host goes on.
    pub open spec fn after(self, go: bool, energy: Flt) -> (SharedEnergy, Act) {
        let on = SharedEnergy { at: (self.at + 1) as u64, ..self };
        if self.at < 3 {
            (on, Act::Fork(self.at))
        } else if self.at >= 43 || (self.at % 2 == 1 && !go) {
            if self.ended {
                (self, Act::Stop)
            } else {
                (SharedEnergy { at: 43, ended: true }, Act::Say(Line::Finished))
            }
        } else if self.at % 2 == 1 {
            (on, Act::Say(Line::Energy(energy)))
        } else {
            (on, Act::Beats(Flt::one()))
        }
    }

    /// Hands out the next act.
    pub fn next(&mut self, go: bool, energy: Flt) -> (r: Act)
        ensures
            *final(self) == old(self).after(go, energy).0,
            r == old(self).after(go, energy).1,
    {
        let at: u64 = self.at;
        if at < 3 {
            self.at = at + 1;
            return Act::Fork(at);
        }
        if at >= 43 || (at % 2 == 1 && !go) {
            if self.ended {
                return Act::Stop;
            }
            self.at = 43;
            self.ended = true;
            return Act::Say(Line::Finished);
        }
        self.at = at + 1;
        if at % 2 == 1 {
            Act::Say(Line::Energy(energy))
        } else {
            Act::Beats(Flt::one())
        }
    }
}

/// Voices that share their energy, before they start.
pub fn run_shared_energy() -> (r: SharedEnergy)
    ensures
        r == (SharedEnergy { at: 0, ended: false }),
{
    SharedEnergy { at: 0, ended: false }
}

/// The energy stays between 0.1 and 1, wherever it is moved.
pub proof fn energy_stays_in_bounds(e: Flt, up: bool)
    requires
        convert::ratio_of(1, 10).at_most(e),
        e.at_most(Flt::one()),
        e.finite(),
    ensures
        convert::ratio_of(1, 10).at_most(modulated(e, up).0),
        modulated(e, up).0.at_most(Flt::one()),
{
    order::lemma_one();
    order::ratio_is_at_most_one(1, 10);
    if up {
        order::ratio_is_at_most_one(5, 100);
        order::sum_never_shrinks(e, convert::ratio_of(5, 100));
    } else {
        order::ratio_is_at_most_one(3, 100);
        order::difference_never_grows(e, convert::ratio_of(3, 100));
    }
}

} // verus!

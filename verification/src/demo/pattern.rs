//! Voices whose notes and acts are fixed.
use vstd::prelude::*;

use crate::demo::act::{Act, Line, Note, Player};
use crate::flt::convert;
use crate::flt::Flt;

verus! {

/// Which of the three programs a piece belongs to. They play the same pieces
/// with small differences.
#[derive(Clone, Copy, Debug, PartialEq, Eq, Structural)]
pub enum Edition {
    /// The long-hand program.
    Plain,
    /// The program with short-hands.
    Brief,
    /// The tersest program.
    Terse,
}

/// What a fixed list of acts is.
#[verifier::ext_equal]
pub struct ScriptView {
    /// The acts of one round.
    pub acts: Seq<Act>,
    /// How many rounds there are.
    pub rounds: u64,
    /// The host is asked before each round whether to go on.
    pub asks: bool,
    /// The acts after the last round.
    pub tail: Seq<Act>,
    /// The round.
    pub round: u64,
    /// The act.
    pub at: nat,
}

/// The act with the number of its round, where it speaks of that.
pub open spec fn numbered(a: Act, round: u64) -> Act {
    match a {
        Act::Say(Line::Phrase(_)) => Act::Say(Line::Phrase((round + 1) as u64)),
        _ => a,
    }
}

impl ScriptView {
    /// The next act, and the script after it. Where the host is asked, a round
    /// starts only while it goes on.
    pub open spec fn next(self, go: bool) -> (ScriptView, Act) {
        if self.round < self.rounds && (self.at > 0 || !self.asks || go) {
            let a = numbered(self.acts[self.at as int], self.round);
            if self.at + 1 < self.acts.len() {
                (ScriptView { at: self.at + 1, ..self }, a)
            } else {
                (ScriptView { at: 0, round: (self.round + 1) as u64, ..self }, a)
            }
        } else {
            self.ended()
        }
    }

    /// The next act after the last round.
    pub open spec fn ended(self) -> (ScriptView, Act) {
        let out = if self.round < self.rounds {
            ScriptView { round: self.rounds, at: 0, ..self }
        } else {
            self
        };
        if out.at < out.tail.len() {
            (ScriptView { at: out.at + 1, ..out }, out.tail[out.at as int])
        } else {
            (out, Act::Stop)
        }
    }

    /// There is an act in every round, and the present one exists.
    pub open spec fn wf(self) -> bool {
        &&& self.acts.len() > 0
        &&& self.round < self.rounds ==> self.at < self.acts.len()
        &&& self.rounds < u64::MAX
    }
}

/// A fixed list of acts, played in rounds.
#[derive(Debug)]
pub struct Script {
    acts: Vec<Act>,
    rounds: u64,
    asks: bool,
    tail: Vec<Act>,
    round: u64,
    at: usize,
}

impl View for Script {
    type V = ScriptView;

    closed spec fn view(&self) -> ScriptView {
        ScriptView {
            acts: self.acts@,
            rounds: self.rounds,
            asks: self.asks,
            tail: self.tail@,
            round: self.round,
            at: self.at as nat,
        }
    }
}

impl Script {
    /// These acts in so many rounds, then those of the tail.
    pub fn new(acts: Vec<Act>, rounds: u64, asks: bool, tail: Vec<Act>) -> (r: Self)
        requires
            acts@.len() > 0,
            rounds < u64::MAX,
        ensures
            r@ == (ScriptView { acts: acts@, rounds, asks, tail: tail@, round: 0, at: 0 }),
            r@.wf(),
    {
        Script { acts, rounds, asks, tail, round: 0, at: 0 }
    }

    /// Hands out the next act.
    pub fn next(&mut self, go: bool) -> (r: Act)
        requires
            old(self)@.wf(),
        ensures
            final(self)@.wf(),
            final(self)@ == old(self)@.next(go).0,
            r == old(self)@.next(go).1,
    {
        if self.round < self.rounds && (self.at > 0 || !self.asks || go) {
            let a: Act = match self.acts[self.at] {
                Act::Say(Line::Phrase(_)) => Act::Say(Line::Phrase(self.round + 1)),
                other => other,
            };
            let last: usize = self.acts.len() - 1;
            if self.at < last {
                self.at = self.at + 1;
            } else {
                self.at = 0;
                self.round = self.round + 1;
            }
            return a;
        }
        if self.round < self.rounds {
            self.round = self.rounds;
            self.at = 0;
        }
        if self.at < self.tail.len() {
            let a: Act = self.tail[self.at];
            self.at = self.at + 1;
            a
        } else {
            Act::Stop
        }
    }
}

/// What a repeated pattern of notes is.
#[verifier::ext_equal]
pub struct PatternView {
    /// The notes, each with how loud it is.
    pub notes: Seq<(u8, u8)>,
    /// How long a note sounds.
    pub hold: Flt,
    /// How long it is quiet after it.
    pub rest: Flt,
    /// Both in seconds, not in beats.
    pub secs: bool,
    /// How many notes there are in all.
    pub count: u64,
    /// How many notes make a group.
    pub group: u64,
    /// The host is asked before each group whether to go on.
    pub asks: bool,
    /// Each group is announced when it is over.
    pub bars: bool,
    /// The acts after the last note.
    pub tail: Seq<Act>,
    /// The notes that have started.
    pub at: u64,
    /// The last group was announced.
    pub told: bool,
    /// The last note is over.
    pub over: bool,
    /// The acts of the tail that were handed out.
    pub tail_at: nat,
    /// The note that is being played.
    pub player: Player,
}

impl PatternView {
    /// There is a note, and groups have a size.
    pub open spec fn wf(self) -> bool {
        self.notes.len() > 0 && self.group > 0 && self.count < u64::MAX
    }

    /// The note that starts next.
    pub open spec fn upcoming(self) -> Note {
        let (note, velocity) = self.notes[(self.at as int) % (self.notes.len() as int)];
        Note { note, velocity, hold: self.hold, rest: self.rest, secs: self.secs }
    }

    /// The next act, and the pattern after it.
    pub open spec fn next(self, go: bool) -> (PatternView, Act) {
        match self.player.sounded() {
            (p, Some(a)) => (PatternView { player: p, ..self }, a),
            (p, None) => if self.over {
                self.ending()
            } else if self.bars && !self.told && self.at > 0 && self.at % self.group == 0 {
                (
                    PatternView { told: true, ..self },
                    Act::Say(Line::Bar((self.at / self.group) as u64)),
                )
            } else if self.at >= self.count || (self.asks && self.at % self.group == 0 && !go) {
                PatternView { over: true, ..self }.ending()
            } else {
                let n = self.upcoming();
                (
                    PatternView {
                        at: (self.at + 1) as u64,
                        told: false,
                        player: Player::begun(n),
                        ..self
                    },
                    Act::On { note: n.note, velocity: n.velocity },
                )
            },
        }
    }

    /// The next act after the last note.
    pub open spec fn ending(self) -> (PatternView, Act) {
        if self.tail_at < self.tail.len() {
            (
                PatternView { tail_at: self.tail_at + 1, ..self },
                self.tail[self.tail_at as int],
            )
        } else {
            (self, Act::Stop)
        }
    }
}

/// A repeated pattern of notes.
#[derive(Debug)]
pub struct Pattern {
    notes: Vec<(u8, u8)>,
    hold: Flt,
    rest: Flt,
    secs: bool,
    count: u64,
    group: u64,
    asks: bool,
    bars: bool,
    tail: Vec<Act>,
    at: u64,
    told: bool,
    over: bool,
    tail_at: usize,
    player: Player,
}

impl View for Pattern {
    type V = PatternView;

    closed spec fn view(&self) -> PatternView {
        PatternView {
            notes: self.notes@,
            hold: self.hold,
            rest: self.rest,
            secs: self.secs,
            count: self.count,
            group: self.group,
            asks: self.asks,
            bars: self.bars,
            tail: self.tail@,
            at: self.at,
            told: self.told,
            over: self.over,
            tail_at: self.tail_at as nat,
            player: self.player,
        }
    }
}

/// A pattern before its first note.
pub open spec fn fresh_pattern(
    notes: Seq<(u8, u8)>,
    hold: Flt,
    rest: Flt,
    secs: bool,
    count: u64,
    group: u64,
    asks: bool,
    bars: bool,
    tail: Seq<Act>,
) -> PatternView {
    PatternView {
        notes,
        hold,
        rest,
        secs,
        count,
        group,
        asks,
        bars,
        tail,
        at: 0,
        told: false,
        over: false,
        tail_at: 0,
        player: Player::quiet(),
    }
}

impl Pattern {
    /// A pattern before its first note.
    pub fn new(
        notes: Vec<(u8, u8)>,
        hold: Flt,
        rest: Flt,
        secs: bool,
        count: u64,
        group: u64,
        asks: bool,
        bars: bool,
        tail: Vec<Act>,
    ) -> (r: Self)
        requires
            notes@.len() > 0,
            group > 0,
            count < u64::MAX,
        ensures
            r@ == fresh_pattern(notes@, hold, rest, secs, count, group, asks, bars, tail@),
            r@.wf(),
    {
        Pattern {
            notes,
            hold,
            rest,
            secs,
            count,
            group,
            asks,
            bars,
            tail,
            at: 0,
            told: false,
            over: false,
            tail_at: 0,
            player: Player::new(),
        }
    }

    /// Hands out the next act.
    pub fn next(&mut self, go: bool) -> (r: Act)
        requires
            old(self)@.wf(),
        ensures
            final(self)@.wf(),
            final(self)@ == old(self)@.next(go).0,
            r == old(self)@.next(go).1,
    {
        match self.player.sound() {
            Some(a) => {
                return a;
            },
            None => {},
        }
        if !self.over {
            if self.bars && !self.told && self.at > 0 && self.at % self.group == 0 {
                self.told = true;
                return Act::Say(Line::Bar(self.at / self.group));
            }
            if self.at >= self.count || (self.asks && self.at % self.group == 0 && !go) {
                self.over = true;
            } else {
                let len: u64 = self.notes.len() as u64;
                let i: u64 = self.at % len;
                let (note, velocity) = self.notes[i as usize];
                self.at = self.at + 1;
                self.told = false;
                let n: Note = Note {
                    note,
                    velocity,
                    hold: self.hold,
                    rest: self.rest,
                    secs: self.secs,
                };
                return self.player.begin(n);
            }
        }
        if self.tail_at < self.tail.len() {
            let a: Act = self.tail[self.tail_at];
            self.tail_at = self.tail_at + 1;
            a
        } else {
            Act::Stop
        }
    }
}

/// The clicks of a metronome: four to a bar, the first one higher and louder.
pub open spec fn clicks() -> Seq<(u8, u8)> {
    seq![(76u8, 120u8), (72u8, 90u8), (72u8, 90u8), (72u8, 90u8)]
}

/// The metronome: eight bars of clicks, or 32 in the tersest program. A click
/// is a quarter note at 120 beats a minute, in the tersest program an eighth.
pub fn run_metronome(e: Edition) -> (r: Pattern)
    ensures
        r@.wf(),
        r@ == (match e {
            Edition::Plain => fresh_pattern(
                clicks(),
                convert::ratio_of(5, 100),
                convert::ratio_of(95, 100),
                false,
                32,
                4,
                true,
                true,
                seq![Act::Say(Line::Finished)],
            ),
            Edition::Brief => fresh_pattern(
                clicks(),
                convert::ratio_of(5, 100),
                convert::ratio_of(45, 100),
                true,
                32,
                4,
                true,
                true,
                seq![Act::Say(Line::Finished)],
            ),
            Edition::Terse => fresh_pattern(
                clicks(),
                convert::ratio_of(5, 100),
                convert::ratio_of(20, 100),
                true,
                128,
                4,
                false,
                false,
                seq![Act::Say(Line::Finished)],
            ),
        }),
{
    let mut notes: Vec<(u8, u8)> = Vec::new();
    notes.push((76, 120));
    notes.push((72, 90));
    notes.push((72, 90));
    notes.push((72, 90));
    assert(notes@ =~= clicks());
    let mut tail: Vec<Act> = Vec::new();
    tail.push(Act::Say(Line::Finished));
    assert(tail@ =~= seq![Act::Say(Line::Finished)]);
    let hold: Flt = Flt::ratio(5, 100);
    match e {
        Edition::Plain => Pattern::new(
            notes,
            hold,
            Flt::ratio(95, 100),
            false,
            32,
            4,
            true,
            true,
            tail,
        ),
        Edition::Brief => Pattern::new(notes, hold, Flt::ratio(45, 100), true, 32, 4, true, true, tail),
        Edition::Terse => Pattern::new(
            notes,
            hold,
            Flt::ratio(20, 100),
            true,
            128,
            4,
            false,
            false,
            tail,
        ),
    }
}

/// One voice of the polyrhythm: three notes to a bar of four beats, or four,
/// for eight bars.
pub fn polyrhythm_voice(e: Edition, three: bool) -> (r: Pattern)
    ensures
        r@.wf(),
        r@ == (if three {
            fresh_pattern(
                seq![(60u8, 100u8)],
                convert::ratio_of(1, 10),
                convert::ratio_of(4, 3).minus(convert::ratio_of(1, 10)),
                false,
                24,
                1,
                true,
                false,
                Seq::empty(),
            )
        } else {
            fresh_pattern(
                seq![(72u8, 80u8)],
                convert::ratio_of(8, 100),
                if e is Plain {
                    Flt::one().minus(convert::ratio_of(8, 100))
                } else {
                    convert::ratio_of(92, 100)
                },
                false,
                32,
                1,
                true,
                false,
                Seq::empty(),
            )
        }),
{
    let mut notes: Vec<(u8, u8)> = Vec::new();
    let tail: Vec<Act> = Vec::new();
    if three {
        notes.push((60, 100));
        assert(notes@ =~= seq![(60u8, 100u8)]);
        let rest: Flt = Flt::ratio(4, 3).difference(Flt::ratio(1, 10));
        Pattern::new(notes, Flt::ratio(1, 10), rest, false, 24, 1, true, false, tail)
    } else {
        notes.push((72, 80));
        assert(notes@ =~= seq![(72u8, 80u8)]);
        let rest: Flt = match e {
            Edition::Plain => Flt::one().difference(Flt::ratio(8, 100)),
            _ => Flt::ratio(92, 100),
        };
        Pattern::new(notes, Flt::ratio(8, 100), rest, false, 32, 1, true, false, tail)
    }
}

/// The acts of the polyrhythm: both voices side by side, and 32 beats of
/// patience.
pub open spec fn polyrhythm() -> Seq<Act> {
    seq![
        Act::Fork(0),
        Act::Fork(1),
        Act::Beats(convert::of_nat(32)),
        Act::Say(Line::Finished),
    ]
}

/// The polyrhythm: both voices side by side, and 32 beats of patience.
pub fn run_polyrhythm() -> (r: Script)
    ensures
        r@.wf(),
        r@ == (ScriptView {
            acts: polyrhythm(),
            rounds: 1,
            asks: false,
            tail: Seq::empty(),
            round: 0,
            at: 0,
        }),
{
    let mut acts: Vec<Act> = Vec::new();
    acts.push(Act::Fork(0));
    acts.push(Act::Fork(1));
    acts.push(Act::Beats(Flt::from_u64(32)));
    acts.push(Act::Say(Line::Finished));
    let r: Script = Script::new(acts, 1, false, Vec::new());
    assert(r@.acts =~= polyrhythm());
    r
}

/// The acts of a voice that has played its part of a phrase.
pub open spec fn phrase_end(voice: u64) -> Seq<Act> {
    seq![Act::Say(Line::VoiceDone(voice)), Act::AwaitBarrier]
}

/// One voice of a phrase: four notes, or five in the same four beats. Then it
/// waits for the other at the barrier.
pub fn phrase_voice(e: Edition, second: bool) -> (r: Pattern)
    ensures
        r@.wf(),
        r@ == (if second {
            fresh_pattern(
                seq![(72u8, 80u8), (74u8, 80u8), (76u8, 80u8), (77u8, 80u8), (79u8, 80u8)],
                if e is Terse {
                    convert::ratio_of(64, 100)
                } else {
                    convert::ratio_of(4, 5).times(convert::ratio_of(8, 10))
                },
                if e is Terse {
                    convert::ratio_of(16, 100)
                } else {
                    convert::ratio_of(4, 5).times(convert::ratio_of(2, 10))
                },
                false,
                5,
                5,
                false,
                false,
                phrase_end(1),
            )
        } else {
            fresh_pattern(
                seq![(60u8, 100u8), (62u8, 100u8), (64u8, 100u8), (65u8, 100u8)],
                convert::ratio_of(8, 10),
                convert::ratio_of(2, 10),
                false,
                4,
                4,
                false,
                false,
                phrase_end(0),
            )
        }),
{
    let mut notes: Vec<(u8, u8)> = Vec::new();
    let mut tail: Vec<Act> = Vec::new();
    if second {
        notes.push((72, 80));
        notes.push((74, 80));
        notes.push((76, 80));
        notes.push((77, 80));
        notes.push((79, 80));
        assert(notes@ =~= seq![
            (72u8, 80u8),
            (74u8, 80u8),
            (76u8, 80u8),
            (77u8, 80u8),
            (79u8, 80u8),
        ]);
        tail.push(Act::Say(Line::VoiceDone(1)));
        tail.push(Act::AwaitBarrier);
        assert(tail@ =~= phrase_end(1));
        let (hold, rest): (Flt, Flt) = match e {
            Edition::Terse => (Flt::ratio(64, 100), Flt::ratio(16, 100)),
            _ => {
                let beat: Flt = Flt::ratio(4, 5);
                (beat.product(Flt::ratio(8, 10)), beat.product(Flt::ratio(2, 10)))
            },
        };
        Pattern::new(notes, hold, rest, false, 5, 5, false, false, tail)
    } else {
        notes.push((60, 100));
        notes.push((62, 100));
        notes.push((64, 100));
        notes.push((65, 100));
        assert(notes@ =~= seq![(60u8, 100u8), (62u8, 100u8), (64u8, 100u8), (65u8, 100u8)]);
        tail.push(Act::Say(Line::VoiceDone(0)));
        tail.push(Act::AwaitBarrier);
        assert(tail@ =~= phrase_end(0));
        Pattern::new(
            notes,
            Flt::ratio(8, 10),
            Flt::ratio(2, 10),
            false,
            4,
            4,
            false,
            false,
            tail,
        )
    }
}

/// The acts of one phrase: the barrier starts, both voices play, and after
/// four and a half beats the barrier is resolved and the first voice let go.
pub open spec fn phrase() -> Seq<Act> {
    seq![
        Act::Say(Line::Phrase(0)),
        Act::StartBarrier,
        Act::Fork(0),
        Act::Fork(1),
        Act::Beats(convert::ratio_of(45, 10)),
        Act::ResolveBarrier,
        Act::Say(Line::Resolved),
        Act::Cancel(0),
    ]
}

/// Two voices that meet at the end of each of four phrases.
pub fn run_barrier_sync(e: Edition) -> (r: Script)
    ensures
        r@.wf(),
        r@ == (ScriptView {
            acts: phrase(),
            rounds: 4,
            asks: true,
            tail: if e is Terse {
                Seq::empty()
            } else {
                seq![Act::Say(Line::Finished)]
            },
            round: 0,
            at: 0,
        }),
{
    let mut acts: Vec<Act> = Vec::new();
    acts.push(Act::Say(Line::Phrase(0)));
    acts.push(Act::StartBarrier);
    acts.push(Act::Fork(0));
    acts.push(Act::Fork(1));
    acts.push(Act::Beats(Flt::ratio(45, 10)));
    acts.push(Act::ResolveBarrier);
    acts.push(Act::Say(Line::Resolved));
    acts.push(Act::Cancel(0));
    assert(acts@ =~= phrase());
    let mut tail: Vec<Act> = Vec::new();
    match e {
        Edition::Terse => {},
        _ => {
            tail.push(Act::Say(Line::Finished));
            assert(tail@ =~= seq![Act::Say(Line::Finished)]);
        },
    }
    Script::new(acts, 4, true, tail)
}

/// The acts of the chord: it starts, would sound for 20 beats, and ends when
/// it is cancelled.
pub open spec fn chord() -> Seq<Act> {
    seq![
        Act::On { note: 60, velocity: 100 },
        Act::On { note: 64, velocity: 100 },
        Act::On { note: 67, velocity: 100 },
        Act::On { note: 72, velocity: 100 },
        Act::EndChordOnCancel,
        Act::Beats(convert::of_nat(20)),
    ]
}

/// The acts that end the chord.
pub open spec fn chord_end() -> Seq<Act> {
    seq![
        Act::Off { note: 60 },
        Act::Off { note: 64 },
        Act::Off { note: 67 },
        Act::Off { note: 72 },
    ]
}

/// The chord.
pub fn chord_voice() -> (r: Script)
    ensures
        r@.wf(),
        r@ == (ScriptView {
            acts: chord(),
            rounds: 1,
            asks: false,
            tail: Seq::empty(),
            round: 0,
            at: 0,
        }),
{
    let mut acts: Vec<Act> = Vec::new();
    acts.push(Act::On { note: 60, velocity: 100 });
    acts.push(Act::On { note: 64, velocity: 100 });
    acts.push(Act::On { note: 67, velocity: 100 });
    acts.push(Act::On { note: 72, velocity: 100 });
    acts.push(Act::EndChordOnCancel);
    acts.push(Act::Beats(Flt::from_u64(20)));
    assert(acts@ =~= chord());
    Script::new(acts, 1, false, Vec::new())
}

/// What ends the chord.
pub fn chord_cleanup() -> (r: Vec<Act>)
    ensures
        r@ == chord_end(),
{
    let mut acts: Vec<Act> = Vec::new();
    acts.push(Act::Off { note: 60 });
    acts.push(Act::Off { note: 64 });
    acts.push(Act::Off { note: 67 });
    acts.push(Act::Off { note: 72 });
    assert(acts@ =~= chord_end());
    acts
}

/// The acts around the cancelled chord: so many beats of it, so many of
/// silence, and a note of so many beats that confirms that all goes on.
pub open spec fn cancellation(sound: Flt, silence: Flt, last: Flt) -> Seq<Act> {
    seq![
        Act::Say(Line::ChordStarts),
        Act::Fork(0),
        Act::Beats(sound),
        Act::Say(Line::Cancelling),
        Act::Cancel(0),
        Act::Beats(silence),
        Act::Say(Line::Confirming),
        Act::On { note: 84, velocity: 100 },
        Act::Beats(last),
        Act::Off { note: 84 },
        Act::Say(Line::Finished),
    ]
}

/// A chord that is cancelled while it sounds.
pub fn run_cancellation(e: Edition) -> (r: Script)
    ensures
        r@.wf(),
        r@ == (ScriptView {
            acts: if e is Terse {
                cancellation(Flt::two(), Flt::one(), Flt::half())
            } else {
                cancellation(convert::of_nat(4), Flt::two(), Flt::one())
            },
            rounds: 1,
            asks: false,
            tail: Seq::empty(),
            round: 0,
            at: 0,
        }),
{
    let (sound, silence, last): (Flt, Flt, Flt) = match e {
        Edition::Terse => (Flt::two(), Flt::one(), Flt::half()),
        _ => (Flt::from_u64(4), Flt::two(), Flt::one()),
    };
    let mut acts: Vec<Act> = Vec::new();
    acts.push(Act::Say(Line::ChordStarts));
    acts.push(Act::Fork(0));
    acts.push(Act::Beats(sound));
    acts.push(Act::Say(Line::Cancelling));
    acts.push(Act::Cancel(0));
    acts.push(Act::Beats(silence));
    acts.push(Act::Say(Line::Confirming));
    acts.push(Act::On { note: 84, velocity: 100 });
    acts.push(Act::Beats(last));
    acts.push(Act::Off { note: 84 });
    acts.push(Act::Say(Line::Finished));
    assert(acts@ =~= cancellation(sound, silence, last));
    Script::new(acts, 1, false, Vec::new())
}

/// Every note that the chord starts, its cleanup ends.
pub proof fn cleanup_ends_the_chord(i: int, note: u8, velocity: u8)
    requires
        0 <= i < chord().len(),
        chord()[i] == (Act::On { note, velocity }),
    ensures
        chord_end().contains(Act::Off { note }),
{
    assert(chord_end()[i] == (Act::Off { note }));
}

} // verus!

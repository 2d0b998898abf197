//! What a voice does, one act at a time.
use vstd::prelude::*;

use crate::flt::Flt;

verus! {

/// The status byte that starts a note.
pub const NOTE_ON: u8 = 0x90;

/// The status byte that ends a note.
pub const NOTE_OFF: u8 = 0x80;

/// The message that starts a note.
pub fn note_on(note: u8, velocity: u8) -> (r: [u8; 3])
    ensures
        r@ == seq![NOTE_ON, note, velocity],
{
    let r: [u8; 3] = [NOTE_ON, note, velocity];
    assert(r@ =~= seq![NOTE_ON, note, velocity]);
    r
}

/// The message that ends a note.
pub fn note_off(note: u8) -> (r: [u8; 3])
    ensures
        r@ == seq![NOTE_OFF, note, 0u8],
{
    let r: [u8; 3] = [NOTE_OFF, note, 0];
    assert(r@ =~= seq![NOTE_OFF, note, 0u8]);
    r
}

/// What a voice has the host do.
#[derive(Clone, Copy, Debug, PartialEq, Eq, Structural)]
pub enum Act {
    /// Start a note.
    On {
        /// The note.
        note: u8,
        /// How loud it is.
        velocity: u8,
    },
    /// End a note.
    Off {
        /// The note.
        note: u8,
    },
    /// Wait for so many beats.
    Beats(Flt),
    /// Wait for so many seconds.
    Secs(Flt),
    /// Move the tempo to `bpm` over `secs` seconds.
    Ramp {
        /// The tempo to reach.
        bpm: Flt,
        /// How long that takes.
        secs: Flt,
    },
    /// Set the tempo.
    Tempo(Flt),
    /// Start a cycle of the barrier.
    StartBarrier,
    /// Wait for the barrier.
    AwaitBarrier,
    /// Resolve the barrier.
    ResolveBarrier,
    /// Start the voice of that number beside this one.
    Fork(u64),
    /// Cancel the voice of that number.
    Cancel(u64),
    /// Have the chord end when this voice is cancelled.
    EndChordOnCancel,
    /// Print a line.
    Say(Line),
    /// Nothing more.
    Stop,
}

/// What a voice prints.
#[derive(Clone, Copy, Debug, PartialEq, Eq, Structural)]
pub enum Line {
    /// A bar is over.
    Bar(u64),
    /// A beat starts.
    Beat(u64),
    /// A phrase starts.
    Phrase(u64),
    /// A voice has played its notes.
    VoiceDone(u64),
    /// The barrier is resolved.
    Resolved,
    /// A note was picked, and how long it lasts.
    Picked(u8, Flt),
    /// The chord starts.
    ChordStarts,
    /// The chord is cancelled.
    Cancelling,
    /// A note confirms that the program goes on.
    Confirming,
    /// How much energy there is.
    Energy(Flt),
    /// A root and its octave.
    Root(u8),
    /// The producer changes the scale.
    ScaleChanges,
    /// The consumer heard of an accent.
    Accent,
    /// The consumer heard of a scale.
    ScaleHeard,
    /// The caller plays.
    Calling,
    /// The responder plays.
    Responding,
    /// The round of a vote, and who won.
    Winner(u64, u8),
    /// The conductor's phase.
    Phase(u64),
    /// The tempo that the conductor sets.
    TempoSet(Flt),
    /// So many beats were played.
    BeatsPlayed(u64),
    /// The program is over.
    Finished,
}

/// A note, how long it sounds and how long it is quiet after it.
#[derive(Clone, Copy, Debug, PartialEq, Eq, Structural)]
pub struct Note {
    /// The note.
    pub note: u8,
    /// How loud it is.
    pub velocity: u8,
    /// How long it sounds.
    pub hold: Flt,
    /// How long it is quiet.
    pub rest: Flt,
    /// Both in seconds, not in beats.
    pub secs: bool,
}

/// What comes next of a note.
#[derive(Clone, Copy, Debug, PartialEq, Eq, Structural)]
pub enum NotePhase {
    /// Nothing: no note is being played.
    Idle,
    /// Its sound.
    Hold,
    /// Its end.
    End,
    /// The quiet after it.
    Rest,
}

/// Plays one note at a time.
#[derive(Clone, Copy, Debug, PartialEq, Eq, Structural)]
pub struct Player {
    /// The note.
    pub note: Note,
    /// What comes next of it.
    pub phase: NotePhase,
}

/// A wait in beats or in seconds.
pub open spec fn pause(secs: bool, x: Flt) -> Act {
    if secs {
        Act::Secs(x)
    } else {
        Act::Beats(x)
    }
}

impl Player {
    /// A player without a note.
    pub open spec fn quiet() -> Player {
        Player {
            note: Note {
                note: 0,
                velocity: 0,
                hold: Flt::zero(),
                rest: Flt::zero(),
                secs: false,
            },
            phase: NotePhase::Idle,
        }
    }

    /// The next act of the note, and the player after it; nothing where no
    /// note is being played.
    pub open spec fn sounded(self) -> (Player, Option<Act>) {
        let n = self.note;
        match self.phase {
            NotePhase::Idle => (self, None),
            NotePhase::Hold => (
                Player { phase: NotePhase::End, ..self },
                Some(pause(n.secs, n.hold)),
            ),
            NotePhase::End => (
                Player { phase: NotePhase::Rest, ..self },
                Some(Act::Off { note: n.note }),
            ),
            NotePhase::Rest => (
                Player { phase: NotePhase::Idle, ..self },
                Some(pause(n.secs, n.rest)),
            ),
        }
    }

    /// The player with another note, past its start.
    pub open spec fn begun(n: Note) -> Player {
        Player { note: n, phase: NotePhase::Hold }
    }

    /// A player without a note.
    pub fn new() -> (r: Self)
        ensures
            r == Player::quiet(),
    {
        Player {
            note: Note {
                note: 0,
                velocity: 0,
                hold: Flt::zero(),
                rest: Flt::zero(),
                secs: false,
            },
            phase: NotePhase::Idle,
        }
    }

    /// Goes on with the note; nothing where none is being played.
    pub fn sound(&mut self) -> (r: Option<Act>)
        ensures
            *final(self) == old(self).sounded().0,
            r == old(self).sounded().1,
    {
        let n: Note = self.note;
        match self.phase {
            NotePhase::Idle => None,
            NotePhase::Hold => {
                self.phase = NotePhase::End;
                Some(
                    if n.secs {
                        Act::Secs(n.hold)
                    } else {
                        Act::Beats(n.hold)
                    },
                )
            },
            NotePhase::End => {
                self.phase = NotePhase::Rest;
                Some(Act::Off { note: n.note })
            },
            NotePhase::Rest => {
                self.phase = NotePhase::Idle;
                Some(
                    if n.secs {
                        Act::Secs(n.rest)
                    } else {
                        Act::Beats(n.rest)
                    },
                )
            },
        }
    }

    /// Starts another note.
    pub fn begin(&mut self, n: Note) -> (r: Act)
        ensures
            *final(self) == Player::begun(n),
            r == (Act::On { note: n.note, velocity: n.velocity }),
    {
        self.note = n;
        self.phase = NotePhase::Hold;
        Act::On { note: n.note, velocity: n.velocity }
    }
}

/// A note that has started ends before the player can start another: its next
/// acts are its sound, its end and its quiet, in that order.
pub proof fn no_note_is_left_on(n: Note)
    ensures
        ({
            let (p1, a1) = Player::begun(n).sounded();
            let (p2, a2) = p1.sounded();
            let (p3, a3) = p2.sounded();
            &&& a1 == Some(pause(n.secs, n.hold))
            &&& a2 == Some(Act::Off { note: n.note })
            &&& a3 == Some(pause(n.secs, n.rest))
            &&& p3.sounded().1 is None
        }),
{
}

} // verus!

//! Who plays in a piece.
use vstd::prelude::*;

use crate::demo::act::Act;
use crate::demo::chords;
use crate::demo::conductor;
use crate::demo::energy::SharedEnergy;
use crate::demo::messages;
use crate::demo::pattern;
use crate::demo::pattern::Edition;
use crate::demo::phrases;
use crate::demo::vote::{BallotView, CollectiveVote};
use crate::flt::Flt;

verus! {

/// What a voice of a piece is.
#[derive(Clone, Copy, Debug, PartialEq, Eq, Structural)]
pub enum Role {
    /// The metronome.
    Metronome,
    /// Starts the two beats of the polyrhythm.
    Polyrhythm,
    /// A beat of the polyrhythm.
    Beat {
        /// The one with three beats.
        three: bool,
    },
    /// Plays while the tempo rises.
    TempoRamp,
    /// Starts the two voices that meet at a barrier.
    BarrierSync,
    /// A voice that meets another at a barrier.
    Phrase {
        /// The second of them.
        second: bool,
    },
    /// Makes up a melody.
    Generative,
    /// Starts a chord and cancels it.
    Cancellation,
    /// The chord that is cancelled.
    Chord,
    /// Starts the voices that share their energy.
    SharedEnergy,
    /// Moves the energy.
    Modulator,
    /// The bass.
    Bass,
    /// Plays bursts.
    Bursts,
    /// Starts the voices that share the notes of a chord.
    ChordMemory,
    /// Plays the roots.
    Root,
    /// Plays on top of the lowest note.
    Harmony,
    /// Plays passing tones.
    Embellish,
    /// Starts the voices that send each other messages.
    MessageQueue,
    /// Sends messages.
    Producer,
    /// Plays what the messages say.
    Consumer,
    /// Starts the voices that call and respond.
    CallResponse,
    /// Calls.
    Caller,
    /// Responds.
    Responder,
    /// Counts the votes.
    CollectiveVote,
    /// Votes, under that number.
    Voter(u64),
    /// Starts the conductor and the performers.
    Ensemble,
    /// Conducts.
    Conductor,
    /// Performs, under that number.
    Performer(u64),
}

/// How many voices a piece has beside its main one.
pub open spec fn side_voices(piece: usize) -> int {
    match piece {
        2 => 2,
        4 => 2,
        6 => 1,
        7 => 3,
        8 => 3,
        9 => 2,
        10 => 2,
        11 => 3,
        12 => 4,
        _ => 0,
    }
}

/// The main voice of a piece, where there is one of that number.
pub open spec fn leading(piece: usize) -> Option<Role> {
    match piece {
        1 => Some(Role::Metronome),
        2 => Some(Role::Polyrhythm),
        3 => Some(Role::TempoRamp),
        4 => Some(Role::BarrierSync),
        5 => Some(Role::Generative),
        6 => Some(Role::Cancellation),
        7 => Some(Role::SharedEnergy),
        8 => Some(Role::ChordMemory),
        9 => Some(Role::MessageQueue),
        10 => Some(Role::CallResponse),
        11 => Some(Role::CollectiveVote),
        12 => Some(Role::Ensemble),
        _ => None,
    }
}

/// The voice that a number stands for in a piece, where it has so many.
pub open spec fn joining(piece: usize, fork: u64) -> Option<Role> {
    if fork >= side_voices(piece) {
        None
    } else {
        match piece {
            2 => Some(Role::Beat { three: fork == 0 }),
            4 => Some(Role::Phrase { second: fork == 1 }),
            6 => Some(Role::Chord),
            7 => Some(
                if fork == 0 {
                    Role::Modulator
                } else if fork == 1 {
                    Role::Bass
                } else {
                    Role::Bursts
                },
            ),
            8 => Some(
                if fork == 0 {
                    Role::Root
                } else if fork == 1 {
                    Role::Harmony
                } else {
                    Role::Embellish
                },
            ),
            9 => Some(
                if fork == 0 {
                    Role::Producer
                } else {
                    Role::Consumer
                },
            ),
            10 => Some(
                if fork == 0 {
                    Role::Caller
                } else {
                    Role::Responder
                },
            ),
            11 => Some(Role::Voter(fork)),
            12 => Some(
                if fork == 0 {
                    Role::Conductor
                } else {
                    Role::Performer((fork - 1) as u64)
                },
            ),
            _ => None,
        }
    }
}

/// The main voice of a piece, where there is one of that number.
pub fn leader(piece: usize) -> (r: Option<Role>)
    ensures
        r == leading(piece),
        r is Some <==> 1 <= piece <= 12,
{
    match piece {
        1 => Some(Role::Metronome),
        2 => Some(Role::Polyrhythm),
        3 => Some(Role::TempoRamp),
        4 => Some(Role::BarrierSync),
        5 => Some(Role::Generative),
        6 => Some(Role::Cancellation),
        7 => Some(Role::SharedEnergy),
        8 => Some(Role::ChordMemory),
        9 => Some(Role::MessageQueue),
        10 => Some(Role::CallResponse),
        11 => Some(Role::CollectiveVote),
        12 => Some(Role::Ensemble),
        _ => None,
    }
}

/// The voice that a number stands for in a piece, where it has so many.
pub fn member(piece: usize, fork: u64) -> (r: Option<Role>)
    ensures
        r == joining(piece, fork),
        r is Some <==> fork < side_voices(piece),
{
    match (piece, fork) {
        (2, 0) => Some(Role::Beat { three: true }),
        (2, 1) => Some(Role::Beat { three: false }),
        (4, 0) => Some(Role::Phrase { second: false }),
        (4, 1) => Some(Role::Phrase { second: true }),
        (6, 0) => Some(Role::Chord),
        (7, 0) => Some(Role::Modulator),
        (7, 1) => Some(Role::Bass),
        (7, 2) => Some(Role::Bursts),
        (8, 0) => Some(Role::Root),
        (8, 1) => Some(Role::Harmony),
        (8, 2) => Some(Role::Embellish),
        (9, 0) => Some(Role::Producer),
        (9, 1) => Some(Role::Consumer),
        (10, 0) => Some(Role::Caller),
        (10, 1) => Some(Role::Responder),
        (11, 0) => Some(Role::Voter(0)),
        (11, 1) => Some(Role::Voter(1)),
        (11, 2) => Some(Role::Voter(2)),
        (12, 0) => Some(Role::Conductor),
        (12, 1) => Some(Role::Performer(0)),
        (12, 2) => Some(Role::Performer(1)),
        (12, 3) => Some(Role::Performer(2)),
        _ => None,
    }
}

/// When a piece is over.
#[derive(Clone, Copy, Debug, PartialEq, Eq, Structural)]
pub enum Ending {
    /// When nothing is left to wait for.
    Quiet,
    /// When its main voice is over.
    Led,
    /// When the host stops it.
    Stopped,
}

/// When a piece is over: the cancelled chord, and in the tersest program the
/// melody, end by themselves.
pub fn ending(e: Edition, piece: usize) -> (r: Ending)
    ensures
        r is Quiet <==> e is Terse && (piece == 5 || piece == 6),
        r is Led <==> !(e is Terse) && piece == 6,
{
    match e {
        Edition::Terse => if piece == 5 || piece == 6 {
            Ending::Quiet
        } else {
            Ending::Stopped
        },
        _ => if piece == 6 {
            Ending::Led
        } else {
            Ending::Stopped
        },
    }
}

/// A voice that an act starts, or cancels, is one of a piece.
pub open spec fn starts_member(act: Act, piece: usize) -> bool {
    match act {
        Act::Fork(k) => joining(piece, k) is Some,
        Act::Cancel(k) => joining(piece, k) is Some,
        _ => true,
    }
}

/// The voices that acts start, or cancel, are voices of a piece.
pub open spec fn starts_members(acts: Seq<Act>, piece: usize) -> bool {
    forall|i: int| 0 <= i < acts.len() ==> starts_member(#[trigger] acts[i], piece)
}

/// Every voice that the main voice of a piece starts, or cancels, is one of the
/// piece: where the main voice has fixed acts, of all of these, else of the
/// next one, wherever it stands.
pub proof fn leaders_start_members(
    sound: Flt,
    silence: Flt,
    last: Flt,
    s: SharedEnergy,
    v: CollectiveVote,
    ballot: BallotView,
    chosen: u8,
    go: bool,
    energy: Flt,
)
    requires
        v.wf(),
    ensures
        starts_members(pattern::polyrhythm(), 2),
        starts_members(pattern::phrase(), 4),
        starts_members(pattern::cancellation(sound, silence, last), 6),
        starts_member(s.after(go, energy).1, 7),
        starts_members(chords::chord_memory(), 8),
        starts_members(messages::message_queue(), 9),
        starts_members(phrases::call_response(), 10),
        starts_member(v.after(go, ballot, chosen).2, 11),
        starts_members(conductor::conducted(), 12),
{
}

} // verus!

//! Voices that vote on what is played.
use vstd::prelude::*;

use crate::context::Ctx;
use crate::demo::act::{Act, Line, Note, Player};
use crate::demo::energy::{self, major_note};
use crate::demo::pick::{self, pick};
use crate::flt::convert;
use crate::flt::Flt;
use crate::world::{World, WorldView};

verus! {

/// How many of the votes are for a note.
pub open spec fn tally(votes: Seq<u8>, note: u8) -> nat
    decreases votes.len(),
{
    if votes.len() == 0 {
        0
    } else {
        tally(votes.drop_last(), note) + (if votes.last() == note {
            1nat
        } else {
            0nat
        })
    }
}

/// A vote was cast for the note, and none got more votes. Of several such
/// notes any may win.
pub open spec fn most_voted(votes: Seq<u8>, note: u8) -> bool {
    &&& votes.contains(note)
    &&& forall|n: u8| #[trigger] tally(votes, n) <= tally(votes, note)
}

proof fn lemma_tally_bound(votes: Seq<u8>, note: u8)
    ensures
        tally(votes, note) <= votes.len(),
        !votes.contains(note) ==> tally(votes, note) == 0,
    decreases votes.len(),
{
    if votes.len() > 0 {
        lemma_tally_bound(votes.drop_last(), note);
        if votes.drop_last().contains(note) {
            let i = choose|i: int| 0 <= i < votes.len() - 1 && votes.drop_last()[i] == note;
            assert(votes[i] == note);
        }
        if votes.last() == note {
            assert(votes[votes.len() - 1] == note);
        }
    }
}

/// How many of the votes are for a note.
pub fn count(votes: &Vec<u8>, note: u8) -> (r: usize)
    ensures
        r == tally(votes@, note),
{
    let mut r: usize = 0;
    let n: usize = votes.len();
    let mut i: usize = 0;
    while i < n
        invariant
            n == votes@.len(),
            i <= n,
            r <= i,
            r == tally(votes@.take(i as int), note),
        decreases n - i,
    {
        assert(votes@.take(i + 1).drop_last() =~= votes@.take(i as int));
        if votes[i] == note {
            r = r + 1;
        }
        i = i + 1;
    }
    assert(votes@.take(n as int) =~= votes@);
    r
}

/// A note with the most votes; nothing where no vote was cast.
pub fn winner(votes: &Vec<u8>) -> (r: Option<u8>)
    ensures
        match r {
            Some(w) => most_voted(votes@, w),
            None => votes@.len() == 0,
        },
{
    let n: usize = votes.len();
    if n == 0 {
        return None;
    }
    let mut best: u8 = votes[0];
    let mut most: usize = count(votes, best);
    let mut i: usize = 1;
    while i < n
        invariant
            n == votes@.len(),
            1 <= i <= n,
            votes@.contains(best),
            most == tally(votes@, best),
            forall|j: int| 0 <= j < i ==> tally(votes@, #[trigger] votes@[j]) <= most,
        decreases n - i,
    {
        let c: usize = count(votes, votes[i]);
        if c > most {
            best = votes[i];
            most = c;
        }
        i = i + 1;
    }
    proof {
        assert forall|m: u8| #[trigger] tally(votes@, m) <= most by {
            lemma_tally_bound(votes@, m);
            if votes@.contains(m) {
                let j = choose|j: int| 0 <= j < votes@.len() && votes@[j] == m;
                assert(tally(votes@, votes@[j]) <= most);
            }
        }
    }
    Some(best)
}

/// What the voices share: the votes, and whether votes are cast.
#[verifier::ext_equal]
pub struct BallotView {
    /// The votes, in the order in which they were cast.
    pub votes: Seq<u8>,
    /// Votes are cast.
    pub open: bool,
}

/// What the voices share.
#[derive(Debug)]
pub struct Ballot {
    /// The votes, in the order in which they were cast.
    pub votes: Vec<u8>,
    /// Votes are cast.
    pub open: bool,
}

impl View for Ballot {
    type V = BallotView;

    open spec fn view(&self) -> BallotView {
        BallotView { votes: self.votes@, open: self.open }
    }
}

impl Ballot {
    /// No votes yet.
    pub fn new() -> (r: Self)
        ensures
            r@ == (BallotView { votes: Seq::empty(), open: true }),
    {
        Ballot { votes: Vec::new(), open: true }
    }
}

/// Where on the scale a voter's choices start: the first voter prefers low
/// notes, the second those in the middle, the others high ones.
pub open spec fn lowest(id: u64) -> int {
    if id == 0 {
        0
    } else if id == 1 {
        3
    } else {
        5
    }
}

/// How many choices a voter has.
pub open spec fn choices(id: u64) -> int {
    if id == 1 {
        2
    } else {
        3
    }
}

/// A voice that votes every half beat.
#[derive(Clone, Copy, Debug, PartialEq, Eq, Structural)]
pub struct Voter {
    /// Which voter it is.
    pub id: u64,
}

impl Voter {
    /// The next act, with the shared state and the ballot after it.
    pub open spec fn after(self, w: WorldView, ctx: u64, go: bool, ballot: BallotView) -> (
        WorldView,
        BallotView,
        Act,
    ) {
        if !go {
            (w, ballot, Act::Stop)
        } else if ballot.open {
            let (v, i) = w.picked(ctx, choices(self.id));
            (
                v,
                BallotView {
                    votes: ballot.votes.push(energy::major()[lowest(self.id) + i]),
                    ..ballot
                },
                Act::Beats(Flt::half()),
            )
        } else {
            (w, ballot, Act::Beats(Flt::half()))
        }
    }

    /// Hands out the next act.
    pub fn next(&self, w: &mut World, ctx: &Ctx, go: bool, ballot: &mut Ballot) -> (r: Act)
        requires
            ctx.alive(old(w)),
        ensures
            ctx.alive(final(w)),
            final(w)@ == self.after(old(w)@, ctx.id, go, old(ballot)@).0,
            final(ballot)@ == self.after(old(w)@, ctx.id, go, old(ballot)@).1,
            r == self.after(old(w)@, ctx.id, go, old(ballot)@).2,
    {
        if !go {
            return Act::Stop;
        }
        if ballot.open {
            let low: u64 = if self.id == 0 {
                0
            } else if self.id == 1 {
                3
            } else {
                5
            };
            let n: u64 = if self.id == 1 {
                2
            } else {
                3
            };
            let i: u64 = pick(w, ctx, n);
            ballot.votes.push(major_note(low + i));
        }
        Act::Beats(Flt::half())
    }
}

/// Where the voice that counts the votes stands.
#[derive(Clone, Copy, Debug, PartialEq, Eq, Structural)]
pub enum VoteStage {
    /// The voter of that number starts.
    Start(u64),
    /// A round starts.
    Open,
    /// The votes are counted.
    Count,
    /// The note is played.
    Play(u8),
    /// All rounds are over.
    Over,
}

/// The voice that counts the votes and plays what won, in 16 rounds.
#[derive(Clone, Copy, Debug, PartialEq, Eq, Structural)]
pub struct CollectiveVote {
    /// The rounds that are over.
    pub round: u64,
    /// Where it stands.
    pub stage: VoteStage,
    /// The note that is being played.
    pub player: Player,
}

/// The note of a winner.
pub open spec fn winning(note: u8) -> Note {
    Note {
        note,
        velocity: 100,
        hold: convert::ratio_of(13, 10),
        rest: convert::ratio_of(2, 10),
        secs: false,
    }
}

impl CollectiveVote {
    /// How a round starts: without votes, for half a beat. After 16 rounds,
    /// or when the host does not go on, there is none.
    pub open spec fn opened(self, go: bool, ballot: BallotView) -> (
        CollectiveVote,
        BallotView,
        Act,
    ) {
        if self.round < 16 && go {
            (
                CollectiveVote { stage: VoteStage::Count, ..self },
                BallotView { votes: Seq::empty(), open: true },
                Act::Beats(Flt::half()),
            )
        } else {
            (
                CollectiveVote { stage: VoteStage::Over, ..self },
                ballot,
                Act::Say(Line::Finished),
            )
        }
    }

    /// The next act, with the voice and the ballot after it, where `chosen`
    /// wins when the votes are counted. A round without votes is passed over.
    pub open spec fn after(self, go: bool, ballot: BallotView, chosen: u8) -> (
        CollectiveVote,
        BallotView,
        Act,
    ) {
        match self.player.sounded() {
            (p, Some(a)) => (CollectiveVote { player: p, ..self }, ballot, a),
            (p, None) => match self.stage {
                VoteStage::Start(i) => (
                    CollectiveVote {
                        stage: if i < 2 {
                            VoteStage::Start((i + 1) as u64)
                        } else {
                            VoteStage::Open
                        },
                        ..self
                    },
                    ballot,
                    Act::Fork(i),
                ),
                VoteStage::Open => self.opened(go, ballot),
                VoteStage::Count => {
                    let on = CollectiveVote { round: (self.round + 1) as u64, ..self };
                    let shut = BallotView { open: false, ..ballot };
                    if ballot.votes.len() == 0 {
                        on.opened(go, shut)
                    } else {
                        (
                            CollectiveVote { stage: VoteStage::Play(chosen), ..on },
                            shut,
                            Act::Say(Line::Winner(on.round, chosen)),
                        )
                    }
                },
                VoteStage::Play(n) => (
                    CollectiveVote {
                        stage: VoteStage::Open,
                        player: Player::begun(winning(n)),
                        ..self
                    },
                    ballot,
                    Act::On { note: n, velocity: 100 },
                ),
                VoteStage::Over => (self, ballot, Act::Stop),
            },
        }
    }

    /// No more than 16 rounds are over, and the voter that starts next is one
    /// of three.
    pub open spec fn wf(self) -> bool {
        &&& self.round <= 16
        &&& self.stage is Count ==> self.round < 16
        &&& self.stage matches VoteStage::Start(i) ==> i < 3
    }

    /// Starts a round.
    fn open(&mut self, go: bool, ballot: &mut Ballot) -> (r: Act)
        requires
            old(self).round <= 16,
        ensures
            final(self).wf(),
            *final(self) == old(self).opened(go, old(ballot)@).0,
            final(ballot)@ == old(self).opened(go, old(ballot)@).1,
            r == old(self).opened(go, old(ballot)@).2,
    {
        if self.round < 16 && go {
            self.stage = VoteStage::Count;
            ballot.votes = Vec::new();
            ballot.open = true;
            Act::Beats(Flt::half())
        } else {
            self.stage = VoteStage::Over;
            Act::Say(Line::Finished)
        }
    }

    /// Hands out the next act, where `chosen` wins when the votes are counted.
    fn step(&mut self, go: bool, ballot: &mut Ballot, chosen: u8) -> (r: Act)
        requires
            old(self).wf(),
        ensures
            final(self).wf(),
            *final(self) == old(self).after(go, old(ballot)@, chosen).0,
            final(ballot)@ == old(self).after(go, old(ballot)@, chosen).1,
            r == old(self).after(go, old(ballot)@, chosen).2,
    {
        match self.player.sound() {
            Some(a) => {
                return a;
            },
            None => {},
        }
        match self.stage {
            VoteStage::Start(i) => {
                self.stage = if i < 2 {
                    VoteStage::Start(i + 1)
                } else {
                    VoteStage::Open
                };
                Act::Fork(i)
            },
            VoteStage::Open => self.open(go, ballot),
            VoteStage::Count => {
                self.round = self.round + 1;
                ballot.open = false;
                if ballot.votes.len() == 0 {
                    return self.open(go, ballot);
                }
                self.stage = VoteStage::Play(chosen);
                Act::Say(Line::Winner(self.round, chosen))
            },
            VoteStage::Play(n) => {
                self.stage = VoteStage::Open;
                self.player.begin(
                    Note {
                        note: n,
                        velocity: 100,
                        hold: Flt::ratio(13, 10),
                        rest: Flt::ratio(2, 10),
                        secs: false,
                    },
                )
            },
            VoteStage::Over => Act::Stop,
        }
    }

    /// Its next act may be `a`, with the voice and the ballot that follow:
    /// some note with the most votes wins when the votes are counted.
    pub open spec fn may(
        self,
        go: bool,
        ballot: BallotView,
        a: Act,
        next: CollectiveVote,
        left: BallotView,
    ) -> bool {
        exists|chosen: u8|
            (ballot.votes.len() == 0 || most_voted(ballot.votes, chosen)) && (next, left, a)
                == #[trigger] self.after(go, ballot, chosen)
    }

    /// Hands out the next act.
    pub fn next(&mut self, go: bool, ballot: &mut Ballot) -> (r: Act)
        requires
            old(self).wf(),
        ensures
            final(self).wf(),
            old(self).may(go, old(ballot)@, r, *final(self), final(ballot)@),
    {
        let chosen: u8 = match winner(&ballot.votes) {
            Some(n) => n,
            None => 0,
        };
        self.step(go, ballot, chosen)
    }
}

/// The voice that counts the votes, before it starts the voters.
pub fn run_collective_vote() -> (r: CollectiveVote)
    ensures
        r.wf(),
        r == (CollectiveVote { round: 0, stage: VoteStage::Start(0), player: Player::quiet() }),
{
    CollectiveVote { round: 0, stage: VoteStage::Start(0), player: Player::new() }
}

/// A note with more than half of the votes wins.
pub proof fn majority_wins(votes: Seq<u8>, note: u8, chosen: u8)
    requires
        2 * tally(votes, note) > votes.len(),
        most_voted(votes, chosen),
    ensures
        chosen == note,
{
    if chosen != note {
        lemma_two_tallies(votes, note, chosen);
        assert(tally(votes, note) <= tally(votes, chosen));
    }
}

proof fn lemma_two_tallies(votes: Seq<u8>, a: u8, b: u8)
    requires
        a != b,
    ensures
        tally(votes, a) + tally(votes, b) <= votes.len(),
    decreases votes.len(),
{
    if votes.len() > 0 {
        lemma_two_tallies(votes.drop_last(), a, b);
    }
}

/// A voter always votes for a note that it prefers.
pub proof fn voters_keep_to_their_range(
    v: Voter,
    w: WorldView,
    ctx: u64,
    ballot: BallotView,
)
    requires
        ballot.open,
    ensures
        ({
            let cast = v.after(w, ctx, true, ballot).1.votes.last();
            energy::major()[lowest(v.id)] <= cast <= energy::major()[lowest(v.id) + choices(v.id)
                - 1]
        }),
{
    pick::pick_is_a_choice(w, ctx, choices(v.id));
    let scale = energy::major();
    assert(scale[0] == 60 && scale[1] == 62 && scale[2] == 64 && scale[3] == 65);
    assert(scale[4] == 67 && scale[5] == 69 && scale[6] == 71 && scale[7] == 72);
}

} // verus!

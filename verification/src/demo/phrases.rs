//! A voice that calls, and one that responds with a variation.
use vstd::prelude::*;

use crate::context::Ctx;
use crate::demo::act::{Act, Line, Note, Player};
use crate::demo::energy::{self, major_note};
use crate::demo::pattern::{Script, ScriptView};
use crate::demo::pick::{self, pick};
use crate::flt::convert;
use crate::flt::Flt;
use crate::world::{World, WorldView};

verus! {

/// A note of a phrase: nine tenths of its time it sounds, the last tenth is
/// quiet.
pub open spec fn phrase_note(note: u8, velocity: u8, time: Flt) -> Note {
    Note {
        note,
        velocity,
        hold: time.times(convert::ratio_of(9, 10)),
        rest: time.times(convert::ratio_of(1, 10)),
        secs: false,
    }
}

/// A note of a phrase.
fn phrase_note_of(note: u8, velocity: u8, time: Flt) -> (r: Note)
    ensures
        r == phrase_note(note, velocity, time),
{
    Note {
        note,
        velocity,
        hold: time.product(Flt::ratio(9, 10)),
        rest: time.product(Flt::ratio(1, 10)),
        secs: false,
    }
}

/// What the caller is.
#[verifier::ext_equal]
pub struct CallerView {
    /// The phrase as far as it was played: notes, and how long each lasts.
    pub phrase: Seq<(u8, Flt)>,
    /// A phrase is under way.
    pub playing: bool,
    /// The notes of the phrase that are left.
    pub left: u64,
    /// The note that is being played.
    pub player: Player,
}

/// The voice that plays phrases picked by chance.
#[derive(Debug)]
pub struct Caller {
    phrase: Vec<(u8, Flt)>,
    playing: bool,
    left: u64,
    player: Player,
}

impl View for Caller {
    type V = CallerView;

    closed spec fn view(&self) -> CallerView {
        CallerView {
            phrase: self.phrase@,
            playing: self.playing,
            left: self.left,
            player: self.player,
        }
    }
}

/// What the two voices share: the last phrase, and whether it is to be
/// responded to.
#[verifier::ext_equal]
pub struct CallView {
    /// The last phrase.
    pub phrase: Seq<(u8, Flt)>,
    /// It is to be responded to.
    pub ready: bool,
}

/// What the two voices share.
#[derive(Debug)]
pub struct Call {
    /// The last phrase.
    pub phrase: Vec<(u8, Flt)>,
    /// It is to be responded to.
    pub ready: bool,
}

impl View for Call {
    type V = CallView;

    open spec fn view(&self) -> CallView {
        CallView { phrase: self.phrase@, ready: self.ready }
    }
}

impl Call {
    /// No phrase.
    pub fn new() -> (r: Self)
        ensures
            r@ == (CallView { phrase: Seq::empty(), ready: false }),
    {
        Call { phrase: Vec::new(), ready: false }
    }
}

impl CallerView {
    /// The next act, with the voice, the shared state and the call after it.
    /// A phrase has three to five notes of the scale, each of a quarter to
    /// three quarters of a beat. When it is over it is left for the
    /// responder, and four beats pass.
    pub open spec fn after(self, w: WorldView, ctx: u64, go: bool, call: CallView) -> (
        CallerView,
        WorldView,
        CallView,
        Act,
    ) {
        match self.player.sounded() {
            (p, Some(a)) => (CallerView { player: p, ..self }, w, call, a),
            (p, None) => if self.playing && self.left > 0 {
                let (v, i) = w.picked(ctx, 8);
                let (u, x) = v.drawn(ctx);
                let time = convert::ratio_of(25, 100).plus(x.times(Flt::half()));
                let n = phrase_note(energy::major()[i], 100, time);
                (
                    CallerView {
                        phrase: self.phrase.push((n.note, time)),
                        left: (self.left - 1) as u64,
                        player: Player::begun(n),
                        ..self
                    },
                    u,
                    call,
                    Act::On { note: n.note, velocity: n.velocity },
                )
            } else if self.playing {
                (
                    CallerView { phrase: Seq::empty(), playing: false, ..self },
                    w,
                    CallView { phrase: self.phrase, ready: true },
                    Act::Beats(convert::of_nat(4)),
                )
            } else if go {
                let (v, i) = w.picked(ctx, 3);
                (
                    CallerView { playing: true, left: (3 + i) as u64, ..self },
                    v,
                    call,
                    Act::Say(Line::Calling),
                )
            } else {
                (self, w, call, Act::Stop)
            },
        }
    }
}

impl Caller {
    /// Before the first phrase.
    pub fn new() -> (r: Self)
        ensures
            r@ == (CallerView {
                phrase: Seq::empty(),
                playing: false,
                left: 0,
                player: Player::quiet(),
            }),
    {
        Caller { phrase: Vec::new(), playing: false, left: 0, player: Player::new() }
    }

    /// Hands out the next act.
    pub fn next(&mut self, w: &mut World, ctx: &Ctx, go: bool, call: &mut Call) -> (r: Act)
        requires
            ctx.alive(old(w)),
        ensures
            ctx.alive(final(w)),
            final(self)@ == old(self)@.after(old(w)@, ctx.id, go, old(call)@).0,
            final(w)@ == old(self)@.after(old(w)@, ctx.id, go, old(call)@).1,
            final(call)@ == old(self)@.after(old(w)@, ctx.id, go, old(call)@).2,
            r == old(self)@.after(old(w)@, ctx.id, go, old(call)@).3,
    {
        match self.player.sound() {
            Some(a) => {
                return a;
            },
            None => {},
        }
        if self.playing && self.left > 0 {
            let i: u64 = pick(w, ctx, 8);
            let note: u8 = major_note(i);
            let x: Flt = ctx.random(w);
            let time: Flt = Flt::ratio(25, 100).sum(x.product(Flt::half()));
            self.phrase.push((note, time));
            self.left = self.left - 1;
            self.player.begin(phrase_note_of(note, 100, time))
        } else if self.playing {
            let mut done: Vec<(u8, Flt)> = Vec::new();
            std::mem::swap(&mut done, &mut self.phrase);
            self.playing = false;
            call.phrase = done;
            call.ready = true;
            Act::Beats(Flt::from_u64(4))
        } else if go {
            let i: u64 = pick(w, ctx, 3);
            self.playing = true;
            self.left = 3 + i;
            Act::Say(Line::Calling)
        } else {
            Act::Stop
        }
    }
}

/// Where the responder stands.
#[derive(Clone, Copy, Debug, PartialEq, Eq, Structural)]
pub enum ResponseStage {
    /// It asks whether to go on.
    Look,
    /// It waits for a phrase.
    Await,
    /// It plays.
    Play,
}

/// What the responder is.
#[verifier::ext_equal]
pub struct ResponderView {
    /// The phrase that it responds to.
    pub phrase: Seq<(u8, Flt)>,
    /// The notes of it that have started.
    pub at: nat,
    /// Where it stands.
    pub stage: ResponseStage,
    /// The note that is being played.
    pub player: Player,
}

/// The voice that responds to phrases with a variation.
#[derive(Debug)]
pub struct Responder {
    phrase: Vec<(u8, Flt)>,
    at: usize,
    stage: ResponseStage,
    player: Player,
}

impl View for Responder {
    type V = ResponderView;

    closed spec fn view(&self) -> ResponderView {
        ResponderView {
            phrase: self.phrase@,
            at: self.at as nat,
            stage: self.stage,
            player: self.player,
        }
    }
}

/// No note is so high that an octave above it does not fit a byte.
pub open spec fn transposable(phrase: Seq<(u8, Flt)>) -> bool {
    forall|i: int| 0 <= i < phrase.len() ==> (#[trigger] phrase[i]).0 <= 243
}

impl ResponderView {
    /// Its notes can be played.
    pub open spec fn wf(self) -> bool {
        transposable(self.phrase) && self.at <= self.phrase.len()
    }

    /// What it does with the call when it asks for a phrase: it waits for a
    /// tenth of a beat while there is none. A phrase without notes is passed
    /// over.
    pub open spec fn answered(self, go: bool, call: CallView) -> (ResponderView, CallView, Act) {
        let heard = CallView { ready: false, ..call };
        let wait = Act::Beats(convert::ratio_of(1, 10));
        if !call.ready {
            (ResponderView { stage: ResponseStage::Await, ..self }, call, wait)
        } else if call.phrase.len() > 0 {
            (
                ResponderView { phrase: call.phrase, at: 0, stage: ResponseStage::Play, ..self },
                heard,
                Act::Say(Line::Responding),
            )
        } else if go {
            (ResponderView { stage: ResponseStage::Await, ..self }, heard, wait)
        } else {
            (ResponderView { stage: ResponseStage::Look, ..self }, heard, Act::Stop)
        }
    }

    /// The next act, with the voice, the shared state and the call after it.
    /// Each note of the phrase is an octave up, and lasts from 0.8 to 1.2
    /// times as long.
    pub open spec fn after(self, w: WorldView, ctx: u64, go: bool, call: CallView) -> (
        ResponderView,
        WorldView,
        CallView,
        Act,
    ) {
        match self.player.sounded() {
            (p, Some(a)) => (ResponderView { player: p, ..self }, w, call, a),
            (p, None) => match self.stage {
                ResponseStage::Play => if self.at < self.phrase.len() {
                    let (note, time) = self.phrase[self.at as int];
                    let (v, x) = w.drawn(ctx);
                    let n = phrase_note(
                        (note + 12) as u8,
                        80,
                        time.times(
                            convert::ratio_of(8, 10).plus(x.times(convert::ratio_of(4, 10))),
                        ),
                    );
                    (
                        ResponderView { at: self.at + 1, player: Player::begun(n), ..self },
                        v,
                        call,
                        Act::On { note: n.note, velocity: n.velocity },
                    )
                } else {
                    (
                        ResponderView { stage: ResponseStage::Look, ..self },
                        w,
                        call,
                        Act::Beats(Flt::one()),
                    )
                },
                ResponseStage::Look => if go {
                    let (s, c, a) = self.answered(go, call);
                    (s, w, c, a)
                } else {
                    (self, w, call, Act::Stop)
                },
                ResponseStage::Await => {
                    let (s, c, a) = self.answered(go, call);
                    (s, w, c, a)
                },
            },
        }
    }
}

/// A copy of a phrase.
fn copied(p: &Vec<(u8, Flt)>) -> (r: Vec<(u8, Flt)>)
    ensures
        r@ == p@,
{
    let mut out: Vec<(u8, Flt)> = Vec::new();
    let n: usize = p.len();
    let mut i: usize = 0;
    while i < n
        invariant
            n == p@.len(),
            i <= n,
            out@ == p@.take(i as int),
        decreases n - i,
    {
        out.push(p[i]);
        assert(out@ =~= p@.take(i + 1));
        i = i + 1;
    }
    assert(out@ =~= p@);
    out
}

impl Responder {
    /// Before the first phrase.
    pub fn new() -> (r: Self)
        ensures
            r@.wf(),
            r@ == (ResponderView {
                phrase: Seq::empty(),
                at: 0,
                stage: ResponseStage::Look,
                player: Player::quiet(),
            }),
    {
        Responder {
            phrase: Vec::new(),
            at: 0,
            stage: ResponseStage::Look,
            player: Player::new(),
        }
    }

    /// Asks for a phrase.
    fn answer(&mut self, go: bool, call: &mut Call) -> (r: Act)
        requires
            old(self)@.wf(),
            transposable(old(call)@.phrase),
        ensures
            final(self)@.wf(),
            transposable(final(call)@.phrase),
            final(self)@ == old(self)@.answered(go, old(call)@).0,
            final(call)@ == old(self)@.answered(go, old(call)@).1,
            r == old(self)@.answered(go, old(call)@).2,
    {
        if !call.ready {
            self.stage = ResponseStage::Await;
            return Act::Beats(Flt::ratio(1, 10));
        }
        call.ready = false;
        if call.phrase.len() > 0 {
            self.phrase = copied(&call.phrase);
            self.at = 0;
            self.stage = ResponseStage::Play;
            Act::Say(Line::Responding)
        } else if go {
            self.stage = ResponseStage::Await;
            Act::Beats(Flt::ratio(1, 10))
        } else {
            self.stage = ResponseStage::Look;
            Act::Stop
        }
    }

    /// Hands out the next act.
    pub fn next(&mut self, w: &mut World, ctx: &Ctx, go: bool, call: &mut Call) -> (r: Act)
        requires
            ctx.alive(old(w)),
            old(self)@.wf(),
            transposable(old(call)@.phrase),
        ensures
            ctx.alive(final(w)),
            final(self)@.wf(),
            transposable(final(call)@.phrase),
            final(self)@ == old(self)@.after(old(w)@, ctx.id, go, old(call)@).0,
            final(w)@ == old(self)@.after(old(w)@, ctx.id, go, old(call)@).1,
            final(call)@ == old(self)@.after(old(w)@, ctx.id, go, old(call)@).2,
            r == old(self)@.after(old(w)@, ctx.id, go, old(call)@).3,
    {
        match self.player.sound() {
            Some(a) => {
                return a;
            },
            None => {},
        }
        match self.stage {
            ResponseStage::Play => {
                if self.at < self.phrase.len() {
                    let (note, time): (u8, Flt) = self.phrase[self.at];
                    assert(self.phrase@[self.at as int].0 <= 243);
                    let x: Flt = ctx.random(w);
                    let varied: Flt = time.product(
                        Flt::ratio(8, 10).sum(x.product(Flt::ratio(4, 10))),
                    );
                    self.at = self.at + 1;
                    self.player.begin(phrase_note_of(note + 12, 80, varied))
                } else {
                    self.stage = ResponseStage::Look;
                    Act::Beats(Flt::one())
                }
            },
            ResponseStage::Look => {
                if !go {
                    return Act::Stop;
                }
                self.answer(go, call)
            },
            ResponseStage::Await => self.answer(go, call),
        }
    }
}

/// The acts of the voice that starts both.
pub open spec fn call_response() -> Seq<Act> {
    seq![
        Act::Fork(0),
        Act::Fork(1),
        Act::Beats(convert::of_nat(24)),
        Act::Say(Line::Finished),
    ]
}

/// The voice that starts both, and ends after 24 beats.
pub fn run_call_response() -> (r: Script)
    ensures
        r@.wf(),
        r@ == (ScriptView {
            acts: call_response(),
            rounds: 1,
            asks: false,
            tail: Seq::empty(),
            round: 0,
            at: 0,
        }),
{
    let mut acts: Vec<Act> = Vec::new();
    acts.push(Act::Fork(0));
    acts.push(Act::Fork(1));
    acts.push(Act::Beats(Flt::from_u64(24)));
    acts.push(Act::Say(Line::Finished));
    assert(acts@ =~= call_response());
    Script::new(acts, 1, false, Vec::new())
}

/// What the caller plays can be responded to: its notes are notes of the
/// scale, which have an octave above them.
pub proof fn calls_can_be_answered(s: CallerView, w: WorldView, ctx: u64, go: bool, call: CallView)
    requires
        transposable(s.phrase),
        transposable(call.phrase),
    ensures
        transposable(s.after(w, ctx, go, call).0.phrase),
        transposable(s.after(w, ctx, go, call).2.phrase),
{
    let scale = energy::major();
    let i = w.picked(ctx, 8).1;
    pick::pick_is_a_choice(w, ctx, 8);
    assert(scale[i] <= 72) by {
        assert(scale[0] == 60 && scale[1] == 62 && scale[2] == 64 && scale[3] == 65);
        assert(scale[4] == 67 && scale[5] == 69 && scale[6] == 71 && scale[7] == 72);
    }
}

} // verus!

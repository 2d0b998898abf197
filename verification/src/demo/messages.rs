//! A voice that sends messages, and one that plays by them.
use vstd::prelude::*;

use crate::context::Ctx;
use crate::demo::act::{Act, Line};
use crate::demo::pattern::{Script, ScriptView};
use crate::demo::pick::pick;
use crate::demo::values::Messages;
use crate::flt::convert;
use crate::flt::Flt;
use crate::world::{World, WorldView};

verus! {

/// What one voice tells the other.
#[derive(Debug)]
pub enum AgentMessage {
    /// A note to play.
    NoteEvent {
        /// The note.
        note: u8,
        /// How loud it is.
        velocity: u8,
    },
    /// The next note is louder.
    Accent,
    /// The next note is left out.
    Rest,
    /// The scale is another one from now on.
    ChangeScale(Vec<u8>),
}

/// What a message is.
#[verifier::ext_equal]
pub enum MessageView {
    /// A note to play.
    NoteEvent {
        /// The note.
        note: u8,
        /// How loud it is.
        velocity: u8,
    },
    /// The next note is louder.
    Accent,
    /// The next note is left out.
    Rest,
    /// The scale is another one from now on.
    ChangeScale(Seq<u8>),
}

impl View for AgentMessage {
    type V = MessageView;

    open spec fn view(&self) -> MessageView {
        match *self {
            AgentMessage::NoteEvent { note, velocity } => MessageView::NoteEvent {
                note,
                velocity,
            },
            AgentMessage::Accent => MessageView::Accent,
            AgentMessage::Rest => MessageView::Rest,
            AgentMessage::ChangeScale(s) => MessageView::ChangeScale(s@),
        }
    }
}

/// What the messages in a queue are.
pub open spec fn queued(q: Seq<AgentMessage>) -> Seq<MessageView> {
    q.map_values(|m: AgentMessage| m@)
}

/// The scales: C major, C minor and C lydian.
pub open spec fn scale_of(i: u64) -> Seq<u8> {
    if i == 0 {
        seq![60u8, 62u8, 64u8, 65u8, 67u8, 69u8, 71u8]
    } else if i == 1 {
        seq![60u8, 62u8, 63u8, 65u8, 67u8, 68u8, 70u8]
    } else {
        seq![60u8, 62u8, 64u8, 66u8, 67u8, 69u8, 71u8]
    }
}

/// The scale of that number.
pub fn scale(i: u64) -> (r: Vec<u8>)
    ensures
        r@ == scale_of(i),
{
    let mut v: Vec<u8> = Vec::new();
    v.push(60);
    v.push(62);
    v.push(
        if i == 1 {
            63
        } else {
            64
        },
    );
    v.push(
        if i == 0 || i == 1 {
            65
        } else {
            66
        },
    );
    v.push(67);
    v.push(
        if i == 1 {
            68
        } else {
            69
        },
    );
    v.push(
        if i == 1 {
            70
        } else {
            71
        },
    );
    assert(v@ =~= scale_of(i));
    v
}

/// The voice that sends messages, every half beat.
#[derive(Clone, Copy, Debug, PartialEq, Eq, Structural)]
pub struct Producer {
    /// The scale.
    pub scale: u64,
    /// The half beats that have passed.
    pub beat: u64,
    /// The scale of this half beat was announced.
    pub told: bool,
}

impl Producer {
    /// Before its first message.
    pub fn new() -> (r: Self)
        ensures
            r == (Producer { scale: 0, beat: 0, told: false }),
    {
        Producer { scale: 0, beat: 0, told: false }
    }

    /// The next act, with the voice and the shared state after it, and the
    /// messages that it sends. Every eighth half beat the scale changes, every
    /// fourth has an accent. One time in five, by chance, there is a rest,
    /// else a note of the scale.
    pub open spec fn after(self, w: WorldView, ctx: u64, go: bool) -> (
        Producer,
        WorldView,
        Seq<MessageView>,
        Act,
    ) {
        if !self.told && !go {
            (self, w, Seq::empty(), Act::Stop)
        } else if !self.told && self.beat > 0 && self.beat % 8 == 0 {
            let s = (self.scale + 1) as u64 % 3;
            (
                Producer { scale: s, told: true, ..self },
                w,
                seq![MessageView::ChangeScale(scale_of(s))],
                Act::Say(Line::ScaleChanges),
            )
        } else {
            let accent = if self.beat % 4 == 0 {
                seq![MessageView::Accent]
            } else {
                Seq::empty()
            };
            let (v, x) = w.drawn(ctx);
            let (u, i) = v.picked(ctx, 7);
            let next = Producer { beat: (self.beat + 1) as u64, told: false, ..self };
            if x.less(convert::ratio_of(2, 10)) {
                (next, v, accent.push(MessageView::Rest), Act::Beats(Flt::half()))
            } else {
                (
                    next,
                    u,
                    accent.push(
                        MessageView::NoteEvent { note: scale_of(self.scale)[i], velocity: 80 },
                    ),
                    Act::Beats(Flt::half()),
                )
            }
        }
    }

    /// Hands out the next act, and sends its messages.
    pub fn next(
        &mut self,
        w: &mut World,
        ctx: &Ctx,
        go: bool,
        q: &mut Messages<AgentMessage>,
    ) -> (r: Act)
        requires
            ctx.alive(old(w)),
            old(self).scale < 3,
            old(self).beat < u64::MAX,
        ensures
            ctx.alive(final(w)),
            final(self).scale < 3,
            *final(self) == old(self).after(old(w)@, ctx.id, go).0,
            final(w)@ == old(self).after(old(w)@, ctx.id, go).1,
            queued(final(q)@) == queued(old(q)@) + old(self).after(old(w)@, ctx.id, go).2,
            r == old(self).after(old(w)@, ctx.id, go).3,
            playable(old(q)@) ==> playable(final(q)@),
    {
        if !self.told && !go {
            assert(queued(q@) =~= queued(old(q)@) + Seq::empty());
            return Act::Stop;
        }
        if !self.told && self.beat > 0 && self.beat % 8 == 0 {
            self.scale = (self.scale + 1) % 3;
            self.told = true;
            let m: AgentMessage = AgentMessage::ChangeScale(scale(self.scale));
            q.push(m);
            assert(queued(q@) =~= queued(old(q)@) + seq![m@]);
            return Act::Say(Line::ScaleChanges);
        }
        if self.beat % 4 == 0 {
            q.push(AgentMessage::Accent);
        }
        let ghost mid = q@;
        let x: Flt = ctx.random(w);
        if x.lt(Flt::ratio(2, 10)) {
            q.push(AgentMessage::Rest);
        } else {
            let notes: Vec<u8> = scale(self.scale);
            let i: u64 = pick(w, ctx, 7);
            let note: u8 = notes[i as usize];
            q.push(AgentMessage::NoteEvent { note, velocity: 80 });
        }
        proof {
            assert(queued(q@) =~= queued(old(q)@) + old(self).after(old(w)@, ctx.id, go).2);
        }
        self.beat = self.beat + 1;
        self.told = false;
        Act::Beats(Flt::half())
    }
}

/// Where the voice that plays by the messages stands.
#[derive(Clone, Copy, Debug, PartialEq, Eq, Structural)]
pub enum ConsumeStage {
    /// It asks whether to go on.
    Look,
    /// It reads messages.
    Read,
    /// A note has started.
    Sound(u8),
    /// A note has sounded.
    End(u8),
}

/// What the voice that plays by the messages is.
#[verifier::ext_equal]
pub struct ConsumerView {
    /// The next note is louder.
    pub accent: bool,
    /// The next note is left out.
    pub rest: bool,
    /// The scale it was told of.
    pub scale: Seq<u8>,
    /// Where it stands.
    pub stage: ConsumeStage,
}

/// The voice that plays by the messages.
#[derive(Debug)]
pub struct Consumer {
    accent: bool,
    rest: bool,
    scale: Vec<u8>,
    stage: ConsumeStage,
}

impl View for Consumer {
    type V = ConsumerView;

    closed spec fn view(&self) -> ConsumerView {
        ConsumerView {
            accent: self.accent,
            rest: self.rest,
            scale: self.scale@,
            stage: self.stage,
        }
    }
}

/// How loud a note with an accent is: 40 more, up to 127.
pub open spec fn accented(velocity: u8) -> u8 {
    if velocity + 40 > 127 {
        127
    } else {
        (velocity + 40) as u8
    }
}

impl ConsumerView {
    /// After it read what it can of the messages, which are left, and what it
    /// does then: what it prints, or the note that it starts, or a pause when
    /// no message is left.
    pub open spec fn read(self, q: Seq<MessageView>) -> (ConsumerView, Seq<MessageView>, Act)
        decreases q.len(),
    {
        if q.len() == 0 {
            (
                ConsumerView { stage: ConsumeStage::Look, ..self },
                q,
                Act::Beats(convert::ratio_of(1, 10)),
            )
        } else {
            let tail = q.skip(1);
            match q[0] {
                MessageView::Accent => (
                    ConsumerView { accent: true, ..self },
                    tail,
                    Act::Say(Line::Accent),
                ),
                MessageView::Rest => ConsumerView { rest: true, ..self }.read(tail),
                MessageView::ChangeScale(s) => (
                    ConsumerView { scale: s, ..self },
                    tail,
                    Act::Say(Line::ScaleHeard),
                ),
                MessageView::NoteEvent { note, velocity } => if self.rest {
                    ConsumerView { rest: false, ..self }.read(tail)
                } else {
                    (
                        ConsumerView {
                            accent: false,
                            stage: ConsumeStage::Sound(note),
                            ..self
                        },
                        tail,
                        Act::On {
                            note,
                            velocity: if self.accent {
                                accented(velocity)
                            } else {
                                velocity
                            },
                        },
                    )
                },
            }
        }
    }

    /// The next act, with the voice and the messages after it.
    pub open spec fn after(self, go: bool, q: Seq<MessageView>) -> (
        ConsumerView,
        Seq<MessageView>,
        Act,
    ) {
        match self.stage {
            ConsumeStage::Look => if go {
                ConsumerView { stage: ConsumeStage::Read, ..self }.read(q)
            } else {
                (self, q, Act::Stop)
            },
            ConsumeStage::Read => self.read(q),
            ConsumeStage::Sound(n) => (
                ConsumerView { stage: ConsumeStage::End(n), ..self },
                q,
                Act::Beats(convert::ratio_of(4, 10)),
            ),
            ConsumeStage::End(n) => (
                ConsumerView { stage: ConsumeStage::Read, ..self },
                q,
                Act::Off { note: n },
            ),
        }
    }
}

/// No note in the queue is so loud that an accent does not fit a byte.
pub open spec fn playable(q: Seq<AgentMessage>) -> bool {
    forall|i: int|
        0 <= i < q.len() ==> ((#[trigger] q[i]) matches AgentMessage::NoteEvent { velocity, .. }
            ==> velocity <= 215)
}

impl Consumer {
    /// Before its first message, with the scale of C major.
    pub fn new() -> (r: Self)
        ensures
            r@ == (ConsumerView {
                accent: false,
                rest: false,
                scale: scale_of(0),
                stage: ConsumeStage::Look,
            }),
    {
        Consumer { accent: false, rest: false, scale: scale(0), stage: ConsumeStage::Look }
    }

    /// The scale it was told of.
    pub fn scale(&self) -> (r: &Vec<u8>)
        ensures
            r@ == self@.scale,
    {
        &self.scale
    }

    /// Hands out the next act, and reads messages for it.
    pub fn next(&mut self, go: bool, q: &mut Messages<AgentMessage>) -> (r: Act)
        requires
            playable(old(q)@),
        ensures
            playable(final(q)@),
            final(self)@ == old(self)@.after(go, queued(old(q)@)).0,
            queued(final(q)@) == old(self)@.after(go, queued(old(q)@)).1,
            r == old(self)@.after(go, queued(old(q)@)).2,
    {
        match self.stage {
            ConsumeStage::Look => {
                if !go {
                    return Act::Stop;
                }
                self.stage = ConsumeStage::Read;
            },
            ConsumeStage::Read => {},
            ConsumeStage::Sound(n) => {
                self.stage = ConsumeStage::End(n);
                return Act::Beats(Flt::ratio(4, 10));
            },
            ConsumeStage::End(n) => {
                self.stage = ConsumeStage::Read;
                return Act::Off { note: n };
            },
        }
        let ghost expected = self@.read(queued(q@));
        loop
            invariant
                playable(q@),
                self@.read(queued(q@)) == expected,
                expected == old(self)@.after(go, queued(old(q)@)),
            decreases q@.len(),
        {
            let ghost was = q@;
            let ghost state = self@;
            let head: Option<AgentMessage> = q.pop();
            proof {
                if was.len() > 0 {
                    assert(queued(was).skip(1) =~= queued(q@));
                    assert(queued(was)[0] == was[0]@);
                    assert forall|i: int| 0 <= i < q@.len() implies ((
                    #[trigger] q@[i]) matches AgentMessage::NoteEvent { velocity, .. } ==> velocity
                        <= 215) by {
                        assert(q@[i] == was[i + 1]);
                    }
                }
            }
            match head {
                Some(AgentMessage::Accent) => {
                    self.accent = true;
                    return Act::Say(Line::Accent);
                },
                Some(AgentMessage::Rest) => {
                    self.rest = true;
                },
                Some(AgentMessage::ChangeScale(s)) => {
                    self.scale = s;
                    return Act::Say(Line::ScaleHeard);
                },
                Some(AgentMessage::NoteEvent { note, velocity }) => {
                    assert(was[0] matches AgentMessage::NoteEvent { velocity, .. } ==> velocity
                        <= 215);
                    if self.rest {
                        self.rest = false;
                    } else {
                        let loud: u8 = if !self.accent {
                            velocity
                        } else if velocity + 40 > 127 {
                            127
                        } else {
                            velocity + 40
                        };
                        self.accent = false;
                        self.stage = ConsumeStage::Sound(note);
                        return Act::On { note, velocity: loud };
                    }
                },
                None => {
                    self.stage = ConsumeStage::Look;
                    return Act::Beats(Flt::ratio(1, 10));
                },
            }
        }
    }
}

/// The acts of the voice that starts both.
pub open spec fn message_queue() -> Seq<Act> {
    seq![
        Act::Fork(0),
        Act::Fork(1),
        Act::Beats(convert::of_nat(16)),
        Act::Say(Line::Finished),
    ]
}

/// The voice that starts both, and ends after 16 beats.
pub fn run_message_queue() -> (r: Script)
    ensures
        r@.wf(),
        r@ == (ScriptView {
            acts: message_queue(),
            rounds: 1,
            asks: false,
            tail: Seq::empty(),
            round: 0,
            at: 0,
        }),
{
    let mut acts: Vec<Act> = Vec::new();
    acts.push(Act::Fork(0));
    acts.push(Act::Fork(1));
    acts.push(Act::Beats(Flt::from_u64(16)));
    acts.push(Act::Say(Line::Finished));
    assert(acts@ =~= message_queue());
    Script::new(acts, 1, false, Vec::new())
}

} // verus!

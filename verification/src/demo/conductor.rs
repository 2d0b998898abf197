//! A voice that conducts others through shared numbers.
use vstd::prelude::*;
use vstd::string::*;

use crate::context::Ctx;
use crate::demo::act::{Act, Line, Note, Player};
use crate::demo::energy::{self, velocity};
use crate::demo::pattern::{Edition, Script, ScriptView};
use crate::demo::pick;
use crate::demo::values::Numbers;
use crate::flt::convert;
use crate::flt::Flt;
use crate::text;
use crate::world::{World, WorldView};

verus! {

/// What the conductor sets.
#[derive(Clone, Copy, Debug, PartialEq, Eq, Structural)]
pub enum Knob {
    /// How loud the performers are.
    Dynamics,
    /// How often they play.
    Density,
    /// How high they play.
    Register,
    /// Whether the performer of that number plays.
    Performer(u64),
}

impl Knob {
    /// The name of the number.
    pub open spec fn label(self, e: Edition) -> Seq<char> {
        let terse = e == Edition::Terse;
        match self {
            Knob::Dynamics => if terse {
                "dyn"@
            } else {
                "dynamics"@
            },
            Knob::Density => if terse {
                "den"@
            } else {
                "density"@
            },
            Knob::Register => if terse {
                "reg"@
            } else {
                "register"@
            },
            Knob::Performer(i) => (if terse {
                "p"@
            } else {
                "performer_"@
            }) + text::decimal(i as nat),
        }
    }

    /// The name of the number.
    pub fn name(self, e: Edition) -> (r: String)
        ensures
            r@ == self.label(e),
    {
        let terse: bool = matches!(e, Edition::Terse);
        match self {
            Knob::Dynamics => (if terse {
                "dyn"
            } else {
                "dynamics"
            }).to_owned(),
            Knob::Density => (if terse {
                "den"
            } else {
                "density"
            }).to_owned(),
            Knob::Register => (if terse {
                "reg"
            } else {
                "register"
            }).to_owned(),
            Knob::Performer(i) => {
                let mut s: String = (if terse {
                    "p"
                } else {
                    "performer_"
                }).to_owned();
                text::push_decimal(&mut s, i);
                s
            },
        }
    }
}

/// The numbers after the settings were made, in their order.
pub open spec fn settled(
    params: Map<Seq<char>, Flt>,
    e: Edition,
    settings: Seq<(Knob, Flt)>,
) -> Map<Seq<char>, Flt>
    decreases settings.len(),
{
    if settings.len() == 0 {
        params
    } else {
        let (k, x) = settings.last();
        settled(params, e, settings.drop_last()).insert(k.label(e), x)
    }
}

/// Makes the settings, in their order.
fn settle(params: &mut Numbers, e: Edition, settings: &Vec<(Knob, Flt)>)
    requires
        old(params).wf(),
    ensures
        final(params).wf(),
        final(params)@ == settled(old(params)@, e, settings@),
{
    let n: usize = settings.len();
    let mut i: usize = 0;
    while i < n
        invariant
            n == settings@.len(),
            i <= n,
            params.wf(),
            params@ == settled(old(params)@, e, settings@.take(i as int)),
        decreases n - i,
    {
        let (k, x): (Knob, Flt) = settings[i];
        let name: String = k.name(e);
        params.set(name.as_str(), x);
        assert(settings@.take(i + 1).drop_last() =~= settings@.take(i as int));
        i = i + 1;
    }
    assert(settings@.take(n as int) =~= settings@);
}

/// The settings at the start: half of everything, and all performers play.
pub open spec fn opening() -> Seq<(Knob, Flt)> {
    seq![
        (Knob::Dynamics, Flt::half()),
        (Knob::Density, Flt::half()),
        (Knob::Register, Flt::half()),
        (Knob::Performer(1), Flt::one()),
        (Knob::Performer(2), Flt::one()),
        (Knob::Performer(3), Flt::one()),
    ]
}

/// Makes the settings of the start.
pub fn set_opening(params: &mut Numbers, e: Edition)
    requires
        old(params).wf(),
    ensures
        final(params).wf(),
        final(params)@ == settled(old(params)@, e, opening()),
{
    let mut s: Vec<(Knob, Flt)> = Vec::new();
    s.push((Knob::Dynamics, Flt::half()));
    s.push((Knob::Density, Flt::half()));
    s.push((Knob::Register, Flt::half()));
    s.push((Knob::Performer(1), Flt::one()));
    s.push((Knob::Performer(2), Flt::one()));
    s.push((Knob::Performer(3), Flt::one()));
    assert(s@ =~= opening());
    settle(params, e, &s);
}

/// The settings of a phase: soft and sparse without the third performer,
/// building up with it, the climax, and a fade in which only the third plays.
pub open spec fn phase_settings(phase: u64) -> Seq<(Knob, Flt)> {
    if phase == 0 {
        seq![
            (Knob::Dynamics, convert::ratio_of(3, 10)),
            (Knob::Density, convert::ratio_of(3, 10)),
            (Knob::Performer(3), Flt::zero()),
        ]
    } else if phase == 1 {
        seq![
            (Knob::Dynamics, convert::ratio_of(6, 10)),
            (Knob::Density, Flt::half()),
            (Knob::Performer(3), Flt::one()),
        ]
    } else if phase == 2 {
        seq![
            (Knob::Dynamics, Flt::one()),
            (Knob::Density, convert::ratio_of(9, 10)),
            (Knob::Register, convert::ratio_of(8, 10)),
        ]
    } else {
        seq![
            (Knob::Dynamics, convert::ratio_of(2, 10)),
            (Knob::Density, convert::ratio_of(2, 10)),
            (Knob::Register, convert::ratio_of(3, 10)),
            (Knob::Performer(1), Flt::zero()),
            (Knob::Performer(2), Flt::zero()),
        ]
    }
}

fn settings_of(phase: u64) -> (r: Vec<(Knob, Flt)>)
    ensures
        r@ == phase_settings(phase),
{
    let mut s: Vec<(Knob, Flt)> = Vec::new();
    if phase == 0 {
        s.push((Knob::Dynamics, Flt::ratio(3, 10)));
        s.push((Knob::Density, Flt::ratio(3, 10)));
        s.push((Knob::Performer(3), Flt::zero()));
    } else if phase == 1 {
        s.push((Knob::Dynamics, Flt::ratio(6, 10)));
        s.push((Knob::Density, Flt::half()));
        s.push((Knob::Performer(3), Flt::one()));
    } else if phase == 2 {
        s.push((Knob::Dynamics, Flt::one()));
        s.push((Knob::Density, Flt::ratio(9, 10)));
        s.push((Knob::Register, Flt::ratio(8, 10)));
    } else {
        s.push((Knob::Dynamics, Flt::ratio(2, 10)));
        s.push((Knob::Density, Flt::ratio(2, 10)));
        s.push((Knob::Register, Flt::ratio(3, 10)));
        s.push((Knob::Performer(1), Flt::zero()));
        s.push((Knob::Performer(2), Flt::zero()));
    }
    assert(s@ =~= phase_settings(phase));
    s
}

/// The settings between two phases.
pub open spec fn reset() -> Seq<(Knob, Flt)> {
    seq![
        (Knob::Performer(1), Flt::one()),
        (Knob::Performer(2), Flt::one()),
        (Knob::Register, Flt::half()),
    ]
}

/// The tempo of a phase: 80, and 20 more with each phase.
pub open spec fn phase_bpm(phase: u64) -> Flt {
    convert::of_nat(80).plus(convert::of_nat(phase as int).times(convert::of_nat(20)))
}

/// The tempo of a phase.
pub fn bpm_of(phase: u64) -> (r: Flt)
    ensures
        r == phase_bpm(phase),
{
    Flt::from_u64(80).sum(Flt::from_u64(phase).product(Flt::from_u64(20)))
}

/// Where the conductor stands.
#[derive(Clone, Copy, Debug, PartialEq, Eq, Structural)]
pub enum ConductStage {
    /// It asks whether to go on.
    Look,
    /// It sets the tempo.
    Tempo,
    /// It prints the tempo.
    Tell,
    /// It lets the phase pass.
    Pass,
    /// The phase is over.
    Reset,
}

/// The voice that conducts: four phases of eight beats, over and over.
#[derive(Clone, Copy, Debug, PartialEq, Eq, Structural)]
pub struct Conductor {
    /// The program it belongs to.
    pub edition: Edition,
    /// The phase, of four.
    pub phase: u64,
    /// Where it stands.
    pub stage: ConductStage,
}

impl Conductor {
    /// Before the first phase.
    pub fn new(edition: Edition) -> (r: Self)
        ensures
            r == (Conductor { edition, phase: 0, stage: ConductStage::Look }),
    {
        Conductor { edition, phase: 0, stage: ConductStage::Look }
    }

    /// How a phase starts, while the host goes on.
    pub open spec fn looked(self, go: bool, params: Map<Seq<char>, Flt>) -> (
        Conductor,
        Map<Seq<char>, Flt>,
        Act,
    ) {
        if go {
            (
                Conductor { stage: ConductStage::Tempo, ..self },
                settled(params, self.edition, phase_settings(self.phase)),
                Act::Say(Line::Phase(self.phase)),
            )
        } else {
            (Conductor { stage: ConductStage::Look, ..self }, params, Act::Stop)
        }
    }

    /// The next act, with the voice and the numbers after it.
    pub open spec fn after(self, go: bool, params: Map<Seq<char>, Flt>) -> (
        Conductor,
        Map<Seq<char>, Flt>,
        Act,
    ) {
        match self.stage {
            ConductStage::Look => self.looked(go, params),
            ConductStage::Tempo => (
                Conductor { stage: ConductStage::Tell, ..self },
                params,
                Act::Tempo(phase_bpm(self.phase)),
            ),
            ConductStage::Tell => (
                Conductor { stage: ConductStage::Pass, ..self },
                params,
                Act::Say(Line::TempoSet(phase_bpm(self.phase))),
            ),
            ConductStage::Pass => (
                Conductor { stage: ConductStage::Reset, ..self },
                params,
                Act::Beats(convert::of_nat(8)),
            ),
            ConductStage::Reset => Conductor {
                phase: ((self.phase + 1) % 4) as u64,
                ..self
            }.looked(go, settled(params, self.edition, reset())),
        }
    }

    /// Starts a phase.
    fn look(&mut self, go: bool, params: &mut Numbers) -> (r: Act)
        requires
            old(params).wf(),
        ensures
            final(params).wf(),
            *final(self) == old(self).looked(go, old(params)@).0,
            final(params)@ == old(self).looked(go, old(params)@).1,
            r == old(self).looked(go, old(params)@).2,
    {
        if !go {
            self.stage = ConductStage::Look;
            return Act::Stop;
        }
        let s: Vec<(Knob, Flt)> = settings_of(self.phase);
        settle(params, self.edition, &s);
        self.stage = ConductStage::Tempo;
        Act::Say(Line::Phase(self.phase))
    }

    /// Hands out the next act, and sets the numbers.
    pub fn next(&mut self, go: bool, params: &mut Numbers) -> (r: Act)
        requires
            old(params).wf(),
            old(self).phase < 4,
        ensures
            final(params).wf(),
            final(self).phase < 4,
            *final(self) == old(self).after(go, old(params)@).0,
            final(params)@ == old(self).after(go, old(params)@).1,
            r == old(self).after(go, old(params)@).2,
    {
        match self.stage {
            ConductStage::Look => self.look(go, params),
            ConductStage::Tempo => {
                self.stage = ConductStage::Tell;
                Act::Tempo(bpm_of(self.phase))
            },
            ConductStage::Tell => {
                self.stage = ConductStage::Pass;
                Act::Say(Line::TempoSet(bpm_of(self.phase)))
            },
            ConductStage::Pass => {
                self.stage = ConductStage::Reset;
                Act::Beats(Flt::from_u64(8))
            },
            ConductStage::Reset => {
                let mut s: Vec<(Knob, Flt)> = Vec::new();
                s.push((Knob::Performer(1), Flt::one()));
                s.push((Knob::Performer(2), Flt::one()));
                s.push((Knob::Register, Flt::half()));
                assert(s@ =~= reset());
                settle(params, self.edition, &s);
                self.phase = (self.phase + 1) % 4;
                self.look(go, params)
            },
        }
    }
}

/// The lowest note of a performer.
pub open spec fn base_note(id: u64) -> int {
    if id == 0 {
        36
    } else if id == 1 {
        60
    } else {
        72
    }
}

/// The number under a name. Where there is none, the tersest program takes 0,
/// the others `other`.
pub open spec fn valued(params: Map<Seq<char>, Flt>, e: Edition, k: Knob, other: Flt) -> Flt {
    if params.contains_key(k.label(e)) {
        params[k.label(e)]
    } else if e == Edition::Terse {
        Flt::zero()
    } else {
        other
    }
}

/// The number under a name.
fn value(params: &Numbers, e: Edition, k: Knob, other: Flt) -> (r: Flt)
    requires
        params.wf(),
    ensures
        r == valued(params@, e, k, other),
{
    let default: Flt = match e {
        Edition::Terse => Flt::zero(),
        _ => other,
    };
    let name: String = k.name(e);
    params.get_or(name.as_str(), default)
}

/// A voice that plays by the conductor's numbers.
#[derive(Clone, Copy, Debug, PartialEq, Eq, Structural)]
pub struct Performer {
    /// The program it belongs to.
    pub edition: Edition,
    /// Which performer it is.
    pub id: u64,
    /// The note that is being played.
    pub player: Player,
}

impl Performer {
    /// Before its first note.
    pub fn new(edition: Edition, id: u64) -> (r: Self)
        ensures
            r == (Performer { edition, id, player: Player::quiet() }),
    {
        Performer { edition, id, player: Player::new() }
    }

    /// How far above its lowest note a performer's notes start.
    pub open spec fn shift(self, params: Map<Seq<char>, Flt>) -> int {
        valued(params, self.edition, Knob::Register, Flt::half()).times(
            convert::of_nat(12),
        ).byte()
    }

    /// The next act, with the voice and the shared state after it. It passes
    /// for half a beat where the conductor has it rest, and by chance where
    /// the density is low.
    pub open spec fn after(
        self,
        w: WorldView,
        ctx: u64,
        go: bool,
        params: Map<Seq<char>, Flt>,
    ) -> (Performer, WorldView, Act) {
        let e = self.edition;
        let pass = Act::Beats(Flt::half());
        match self.player.sounded() {
            (p, Some(a)) => (Performer { player: p, ..self }, w, a),
            (p, None) => if !go {
                (self, w, Act::Stop)
            } else if valued(
                params,
                e,
                Knob::Performer((self.id + 1) as u64),
                Flt::one(),
            ).less(Flt::half()) {
                (self, w, pass)
            } else {
                let (v, x) = w.drawn(ctx);
                if valued(params, e, Knob::Density, Flt::half()).less(x) {
                    (self, v, pass)
                } else {
                    let (u, y) = v.drawn(ctx);
                    let n = Note {
                        note: (base_note(self.id) + self.shift(params) + y.times(
                            convert::of_nat(7),
                        ).byte()) as u8,
                        velocity: energy::loudness(
                            40,
                            80,
                            valued(params, e, Knob::Dynamics, Flt::half()),
                        ),
                        hold: convert::ratio_of(4, 10),
                        rest: convert::ratio_of(1, 10),
                        secs: false,
                    };
                    (
                        Performer { player: Player::begun(n), ..self },
                        u,
                        Act::On { note: n.note, velocity: n.velocity },
                    )
                }
            },
        }
    }

    /// Hands out the next act.
    pub fn next(&mut self, w: &mut World, ctx: &Ctx, go: bool, params: &Numbers) -> (r: Act)
        requires
            ctx.alive(old(w)),
            params.wf(),
            old(self).id < u64::MAX,
            base_note(old(self).id) + old(self).shift(params@) + 6 <= u8::MAX,
        ensures
            ctx.alive(final(w)),
            *final(self) == old(self).after(old(w)@, ctx.id, go, params@).0,
            final(w)@ == old(self).after(old(w)@, ctx.id, go, params@).1,
            r == old(self).after(old(w)@, ctx.id, go, params@).2,
    {
        match self.player.sound() {
            Some(a) => {
                return a;
            },
            None => {},
        }
        if !go {
            return Act::Stop;
        }
        let e: Edition = self.edition;
        let id: u64 = self.id;
        if value(params, e, Knob::Performer(id + 1), Flt::one()).lt(Flt::half()) {
            return Act::Beats(Flt::half());
        }
        let dynamics: Flt = value(params, e, Knob::Dynamics, Flt::half());
        let density: Flt = value(params, e, Knob::Density, Flt::half());
        let register: Flt = value(params, e, Knob::Register, Flt::half());
        let x: Flt = ctx.random(w);
        if density.lt(x) {
            return Act::Beats(Flt::half());
        }
        let shift: u8 = register.product(Flt::from_u64(12)).trunc_u8();
        let base: u8 = if id == 0 {
            36
        } else if id == 1 {
            60
        } else {
            72
        };
        proof {
            pick::pick_is_a_choice(w@, ctx.id, 7);
        }
        let y: Flt = ctx.random(w);
        let step: u8 = y.product(Flt::from_u64(7)).trunc_u8();
        self.player.begin(
            Note {
                note: base + shift + step,
                velocity: velocity(40, 80, dynamics),
                hold: Flt::ratio(4, 10),
                rest: Flt::ratio(1, 10),
                secs: false,
            },
        )
    }
}

/// The acts of the voice that starts the conductor and the performers.
pub open spec fn conducted() -> Seq<Act> {
    seq![
        Act::Fork(0),
        Act::Fork(1),
        Act::Fork(2),
        Act::Fork(3),
        Act::Beats(convert::of_nat(35)),
        Act::Say(Line::Finished),
    ]
}

/// The voice that starts the conductor and three performers, and ends after
/// 35 beats.
pub fn run_conductor() -> (r: Script)
    ensures
        r@.wf(),
        r@ == (ScriptView {
            acts: conducted(),
            rounds: 1,
            asks: false,
            tail: Seq::empty(),
            round: 0,
            at: 0,
        }),
{
    let mut acts: Vec<Act> = Vec::new();
    acts.push(Act::Fork(0));
    acts.push(Act::Fork(1));
    acts.push(Act::Fork(2));
    acts.push(Act::Fork(3));
    acts.push(Act::Beats(Flt::from_u64(35)));
    acts.push(Act::Say(Line::Finished));
    assert(acts@ =~= conducted());
    Script::new(acts, 1, false, Vec::new())
}

/// A performer who is to rest starts no note.
pub proof fn resting_performer_is_silent(
    p: Performer,
    w: WorldView,
    ctx: u64,
    go: bool,
    params: Map<Seq<char>, Flt>,
)
    requires
        valued(params, p.edition, Knob::Performer((p.id + 1) as u64), Flt::one()).less(
            Flt::half(),
        ),
    ensures
        !(p.after(w, ctx, go, params).2 is On),
{
}

} // verus!

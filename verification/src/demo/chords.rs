//! Voices that harmonise with the notes that sound.
use vstd::prelude::*;

use crate::context::Ctx;
use crate::demo::act::{Act, Line, Note, Player};
use crate::demo::pattern::{Script, ScriptView};
use crate::demo::pick::pick;
use crate::demo::values::Notes;
use crate::flt::convert;
use crate::flt::Flt;
use crate::world::{World, WorldView};

verus! {

/// The roots, in the order in which they are played.
pub open spec fn roots() -> Seq<u8> {
    seq![48u8, 50u8, 52u8, 53u8, 55u8]
}

/// What the voice that plays the roots does when no note is being played.
#[derive(Clone, Copy, Debug, PartialEq, Eq, Structural)]
pub struct RootVoice {
    /// The roots that have started.
    pub count: u64,
    /// The last root is to be printed.
    pub say: bool,
    /// The note that is being played.
    pub player: Player,
}

impl RootVoice {
    /// Before its first note.
    pub fn new() -> (r: Self)
        ensures
            r == (RootVoice { count: 0, say: false, player: Player::quiet() }),
    {
        RootVoice { count: 0, say: false, player: Player::new() }
    }

    /// The root that starts next.
    pub open spec fn root(self) -> u8 {
        roots()[self.count as int % 5]
    }

    /// The next act, with the voice and the notes that sound after it. A new
    /// root replaces all of them by itself and its octave.
    pub open spec fn after(self, go: bool, sounding: Set<u8>) -> (RootVoice, Set<u8>, Act) {
        if self.say {
            (
                RootVoice { say: false, ..self },
                sounding,
                Act::Say(Line::Root(self.player.note.note)),
            )
        } else {
            match self.player.sounded() {
                (p, Some(a)) => (RootVoice { player: p, ..self }, sounding, a),
                (p, None) => if go {
                    let root = self.root();
                    let n = Note {
                        note: root,
                        velocity: 90,
                        hold: convert::ratio_of(38, 10),
                        rest: convert::ratio_of(2, 10),
                        secs: false,
                    };
                    (
                        RootVoice {
                            count: (self.count + 1) as u64,
                            say: true,
                            player: Player::begun(n),
                        },
                        Set::empty().insert(root).insert((root + 12) as u8),
                        Act::On { note: root, velocity: 90 },
                    )
                } else {
                    (self, sounding, Act::Stop)
                },
            }
        }
    }

    /// Hands out the next act.
    pub fn next(&mut self, go: bool, sounding: &mut Notes) -> (r: Act)
        requires
            old(sounding).wf(),
            old(self).count < u64::MAX,
        ensures
            final(sounding).wf(),
            *final(self) == old(self).after(go, old(sounding)@).0,
            final(sounding)@ == old(self).after(go, old(sounding)@).1,
            r == old(self).after(go, old(sounding)@).2,
    {
        if self.say {
            self.say = false;
            return Act::Say(Line::Root(self.player.note.note));
        }
        match self.player.sound() {
            Some(a) => {
                return a;
            },
            None => {},
        }
        if !go {
            return Act::Stop;
        }
        let all: [u8; 5] = [48, 50, 52, 53, 55];
        assert(all@ =~= roots());
        let i: u64 = self.count % 5;
        let root: u8 = all[i as usize];
        assert(root <= 55) by {
            assert(roots()[i as int] <= 55);
        }
        sounding.clear();
        sounding.add(root);
        sounding.add(root + 12);
        self.count = self.count + 1;
        self.say = true;
        self.player.begin(
            Note {
                note: root,
                velocity: 90,
                hold: Flt::ratio(38, 10),
                rest: Flt::ratio(2, 10),
                secs: false,
            },
        )
    }
}

/// `low` is one of the notes below 60 that sound, or there is none.
pub open spec fn is_low(sounding: Set<u8>, low: Option<u8>) -> bool {
    match low {
        Some(n) => n < 60 && sounding.contains(n),
        None => forall|n: u8| #[trigger] sounding.contains(n) ==> n >= 60,
    }
}

/// One of the notes below 60 that sound, where there is one. Where there are
/// several, any of them.
pub fn low_note(sounding: &Notes) -> (r: Option<u8>)
    requires
        sounding.wf(),
    ensures
        is_low(sounding@, r),
{
    let notes: Vec<u8> = sounding.notes();
    let mut i: usize = 0;
    while i < notes.len()
        invariant
            i <= notes.len(),
            notes@.to_set() == sounding@,
            forall|j: int| 0 <= j < i ==> #[trigger] notes@[j] >= 60,
        decreases notes.len() - i,
    {
        if notes[i] < 60 {
            assert(notes@.contains(notes@[i as int]));
            assert(notes@.to_set().contains(notes@[i as int]));
            return Some(notes[i]);
        }
        i = i + 1;
    }
    proof {
        assert forall|n: u8| #[trigger] sounding@.contains(n) implies n >= 60 by {
            assert(notes@.contains(n));
            let j = choose|j: int| 0 <= j < notes@.len() && notes@[j] == n;
            assert(notes@[j] >= 60);
        }
    }
    None
}

/// Where the voice that adds a third and a fifth stands.
#[derive(Clone, Copy, Debug, PartialEq, Eq, Structural)]
pub enum HarmonyStage {
    /// Before its first wait.
    Early,
    /// It looks for a root.
    Look,
    /// The third has started.
    Third(u8),
    /// Both have started.
    Sound(u8),
    /// They have sounded.
    EndThird(u8),
    /// The third has ended.
    EndFifth(u8),
    /// Both have ended.
    Quiet,
}

/// Adds a third and a fifth to a root that sounds.
#[derive(Clone, Copy, Debug, PartialEq, Eq, Structural)]
pub struct HarmonyVoice {
    /// Where it stands.
    pub stage: HarmonyStage,
}

impl HarmonyVoice {
    /// Before its first wait.
    pub fn new() -> (r: Self)
        ensures
            r.stage == HarmonyStage::Early,
    {
        HarmonyVoice { stage: HarmonyStage::Early }
    }

    /// The next act, with the voice and the notes that sound after it, where
    /// `low` is the low note that was found. The third lies 16 semitones above
    /// it, the fifth 19.
    pub open spec fn after(self, go: bool, low: Option<u8>, sounding: Set<u8>) -> (
        HarmonyVoice,
        Set<u8>,
        Act,
    ) {
        match self.stage {
            HarmonyStage::Early => (
                HarmonyVoice { stage: HarmonyStage::Look },
                sounding,
                Act::Beats(Flt::half()),
            ),
            HarmonyStage::Look => if !go {
                (self, sounding, Act::Stop)
            } else {
                match low {
                    Some(root) => (
                        HarmonyVoice { stage: HarmonyStage::Third(root) },
                        sounding,
                        Act::On { note: (root + 16) as u8, velocity: 70 },
                    ),
                    None => (self, sounding, Act::Beats(Flt::half())),
                }
            },
            HarmonyStage::Third(root) => (
                HarmonyVoice { stage: HarmonyStage::Sound(root) },
                sounding.insert((root + 16) as u8).insert((root + 19) as u8),
                Act::On { note: (root + 19) as u8, velocity: 70 },
            ),
            HarmonyStage::Sound(root) => (
                HarmonyVoice { stage: HarmonyStage::EndThird(root) },
                sounding,
                Act::Beats(convert::ratio_of(25, 10)),
            ),
            HarmonyStage::EndThird(root) => (
                HarmonyVoice { stage: HarmonyStage::EndFifth(root) },
                sounding,
                Act::Off { note: (root + 16) as u8 },
            ),
            HarmonyStage::EndFifth(root) => (
                HarmonyVoice { stage: HarmonyStage::Quiet },
                sounding.remove((root + 16) as u8).remove((root + 19) as u8),
                Act::Off { note: (root + 19) as u8 },
            ),
            HarmonyStage::Quiet => (
                HarmonyVoice { stage: HarmonyStage::Look },
                sounding,
                Act::Beats(convert::ratio_of(15, 10)),
            ),
        }
    }

    /// The root that it plays to is a low note.
    pub open spec fn wf(self) -> bool {
        match self.stage {
            HarmonyStage::Third(r) => r < 60,
            HarmonyStage::Sound(r) => r < 60,
            HarmonyStage::EndThird(r) => r < 60,
            HarmonyStage::EndFifth(r) => r < 60,
            _ => true,
        }
    }

    /// Hands out the next act.
    pub fn next(&mut self, go: bool, sounding: &mut Notes) -> (r: Act)
        requires
            old(self).wf(),
            old(sounding).wf(),
        ensures
            final(self).wf(),
            final(sounding).wf(),
            exists|low: Option<u8>| #[trigger]
                is_low(old(sounding)@, low) && (*final(self), final(sounding)@, r) == old(
                    self,
                ).after(go, low, old(sounding)@),
    {
        let low: Option<u8> = low_note(sounding);
        assert(is_low(old(sounding)@, low));
        let ghost expected = old(self).after(go, low, old(sounding)@);
        let act: Act = match self.stage {
            HarmonyStage::Early => {
                self.stage = HarmonyStage::Look;
                Act::Beats(Flt::half())
            },
            HarmonyStage::Look => {
                if !go {
                    Act::Stop
                } else {
                    match low {
                        Some(root) => {
                            self.stage = HarmonyStage::Third(root);
                            Act::On { note: root + 16, velocity: 70 }
                        },
                        None => Act::Beats(Flt::half()),
                    }
                }
            },
            HarmonyStage::Third(root) => {
                self.stage = HarmonyStage::Sound(root);
                sounding.add(root + 16);
                sounding.add(root + 19);
                Act::On { note: root + 19, velocity: 70 }
            },
            HarmonyStage::Sound(root) => {
                self.stage = HarmonyStage::EndThird(root);
                Act::Beats(Flt::ratio(25, 10))
            },
            HarmonyStage::EndThird(root) => {
                self.stage = HarmonyStage::EndFifth(root);
                Act::Off { note: root + 16 }
            },
            HarmonyStage::EndFifth(root) => {
                self.stage = HarmonyStage::Quiet;
                sounding.remove(root + 16);
                sounding.remove(root + 19);
                Act::Off { note: root + 19 }
            },
            HarmonyStage::Quiet => {
                self.stage = HarmonyStage::Look;
                Act::Beats(Flt::ratio(15, 10))
            },
        };
        assert((*self, sounding@, act) == expected);
        act
    }
}

/// Some note that sounds has the pitch class of `n`.
pub open spec fn in_chord(sounding: Set<u8>, n: u8) -> bool {
    exists|c: u8| #[trigger] sounding.contains(c) && c % 12 == n % 12
}

/// The notes from 60 up to, but not including, `n` whose pitch class no note
/// that sounds has, the lowest first.
pub open spec fn passing(sounding: Set<u8>, n: int) -> Seq<u8>
    decreases n,
{
    if n <= 60 {
        Seq::empty()
    } else if in_chord(sounding, (n - 1) as u8) {
        passing(sounding, n - 1)
    } else {
        passing(sounding, n - 1).push((n - 1) as u8)
    }
}

/// Some note that sounds has the pitch class of `n`.
fn has_class(notes: &Vec<u8>, n: u8) -> (r: bool)
    ensures
        r == in_chord(notes@.to_set(), n),
{
    let mut i: usize = 0;
    while i < notes.len()
        invariant
            i <= notes.len(),
            forall|j: int| 0 <= j < i ==> (#[trigger] notes@[j]) % 12 != n % 12,
        decreases notes.len() - i,
    {
        if notes[i] % 12 == n % 12 {
            assert(notes@.contains(notes@[i as int]));
            assert(notes@.to_set().contains(notes@[i as int]));
            return true;
        }
        i = i + 1;
    }
    proof {
        assert forall|c: u8| #[trigger] notes@.to_set().contains(c) implies c % 12 != n % 12 by {
            assert(notes@.contains(c));
            let j = choose|j: int| 0 <= j < notes@.len() && notes@[j] == c;
            assert(notes@[j] % 12 != n % 12);
        }
    }
    false
}

/// The notes from 60 to 83 whose pitch class no note that sounds has, the
/// lowest first.
pub fn passing_tones(sounding: &Notes) -> (r: Vec<u8>)
    requires
        sounding.wf(),
    ensures
        r@ == passing(sounding@, 84),
        r@.len() <= 24,
{
    let notes: Vec<u8> = sounding.notes();
    let mut out: Vec<u8> = Vec::new();
    let mut n: u8 = 60;
    while n < 84
        invariant
            60 <= n <= 84,
            notes@.to_set() == sounding@,
            out@ == passing(sounding@, n as int),
            out@.len() <= n - 60,
        decreases 84 - n,
    {
        if !has_class(&notes, n) {
            out.push(n);
        }
        n = n + 1;
    }
    out
}

/// Where the voice that adds passing tones stands.
#[derive(Clone, Copy, Debug, PartialEq, Eq, Structural)]
pub enum EmbellishStage {
    /// Before its first wait.
    Early,
    /// It looks for a note.
    Look,
    /// The note has started.
    Sound(u8),
    /// The note has sounded.
    End(u8),
    /// There is no note, or it has ended.
    Quiet,
}

/// Adds notes that do not belong to the chord.
#[derive(Clone, Copy, Debug, PartialEq, Eq, Structural)]
pub struct EmbellishVoice {
    /// Where it stands.
    pub stage: EmbellishStage,
}

impl EmbellishVoice {
    /// Before its first wait.
    pub fn new() -> (r: Self)
        ensures
            r.stage == EmbellishStage::Early,
    {
        EmbellishVoice { stage: EmbellishStage::Early }
    }

    /// The next act, with the voice and the shared state after it.
    pub open spec fn after(self, w: WorldView, ctx: u64, go: bool, sounding: Set<u8>) -> (
        EmbellishVoice,
        WorldView,
        Act,
    ) {
        let tones = passing(sounding, 84);
        match self.stage {
            EmbellishStage::Early => (
                EmbellishVoice { stage: EmbellishStage::Look },
                w,
                Act::Beats(Flt::one()),
            ),
            EmbellishStage::Look => if !go {
                (self, w, Act::Stop)
            } else if tones.len() == 0 {
                (self, w, Act::Beats(convert::ratio_of(35, 100)))
            } else {
                let (v, i) = w.picked(ctx, tones.len() as int);
                (
                    EmbellishVoice { stage: EmbellishStage::Sound(tones[i]) },
                    v,
                    Act::On { note: tones[i], velocity: 50 },
                )
            },
            EmbellishStage::Sound(n) => (
                EmbellishVoice { stage: EmbellishStage::End(n) },
                w,
                Act::Beats(convert::ratio_of(15, 100)),
            ),
            EmbellishStage::End(n) => (
                EmbellishVoice { stage: EmbellishStage::Quiet },
                w,
                Act::Off { note: n },
            ),
            EmbellishStage::Quiet => (
                EmbellishVoice { stage: EmbellishStage::Look },
                w,
                Act::Beats(convert::ratio_of(35, 100)),
            ),
        }
    }

    /// Hands out the next act.
    pub fn next(&mut self, w: &mut World, ctx: &Ctx, go: bool, sounding: &Notes) -> (r: Act)
        requires
            ctx.alive(old(w)),
            sounding.wf(),
        ensures
            ctx.alive(final(w)),
            *final(self) == old(self).after(old(w)@, ctx.id, go, sounding@).0,
            final(w)@ == old(self).after(old(w)@, ctx.id, go, sounding@).1,
            r == old(self).after(old(w)@, ctx.id, go, sounding@).2,
    {
        match self.stage {
            EmbellishStage::Early => {
                self.stage = EmbellishStage::Look;
                Act::Beats(Flt::one())
            },
            EmbellishStage::Look => {
                if !go {
                    return Act::Stop;
                }
                let tones: Vec<u8> = passing_tones(sounding);
                if tones.len() == 0 {
                    Act::Beats(Flt::ratio(35, 100))
                } else {
                    let i: u64 = pick(w, ctx, tones.len() as u64);
                    let note: u8 = tones[i as usize];
                    self.stage = EmbellishStage::Sound(note);
                    Act::On { note, velocity: 50 }
                }
            },
            EmbellishStage::Sound(n) => {
                self.stage = EmbellishStage::End(n);
                Act::Beats(Flt::ratio(15, 100))
            },
            EmbellishStage::End(n) => {
                self.stage = EmbellishStage::Quiet;
                Act::Off { note: n }
            },
            EmbellishStage::Quiet => {
                self.stage = EmbellishStage::Look;
                Act::Beats(Flt::ratio(35, 100))
            },
        }
    }
}

/// The acts of the voice that starts the three others.
pub open spec fn chord_memory() -> Seq<Act> {
    seq![
        Act::Fork(0),
        Act::Fork(1),
        Act::Fork(2),
        Act::Beats(convert::of_nat(20)),
        Act::Say(Line::Finished),
    ]
}

/// The voice that starts the three others, and ends after 20 beats.
pub fn run_chord_memory() -> (r: Script)
    ensures
        r@.wf(),
        r@ == (ScriptView {
            acts: chord_memory(),
            rounds: 1,
            asks: false,
            tail: Seq::empty(),
            round: 0,
            at: 0,
        }),
{
    let mut acts: Vec<Act> = Vec::new();
    acts.push(Act::Fork(0));
    acts.push(Act::Fork(1));
    acts.push(Act::Fork(2));
    acts.push(Act::Beats(Flt::from_u64(20)));
    acts.push(Act::Say(Line::Finished));
    assert(acts@ =~= chord_memory());
    Script::new(acts, 1, false, Vec::new())
}

/// No passing tone has the pitch class of a note that sounds, and every note
/// in range that has none of them is a passing tone.
pub proof fn passing_tones_avoid_the_chord(sounding: Set<u8>, n: int, x: u8)
    requires
        n <= 84,
    ensures
        passing(sounding, n).contains(x) <==> 60 <= x < n && !in_chord(sounding, x),
    decreases n,
{
    if n > 60 {
        passing_tones_avoid_the_chord(sounding, n - 1, x);
        let init = passing(sounding, n - 1);
        let all = passing(sounding, n);
        if init.contains(x) {
            let i = choose|i: int| 0 <= i < init.len() && init[i] == x;
            assert(all[i] == x);
        }
        if !in_chord(sounding, (n - 1) as u8) {
            assert(all[init.len() as int] == (n - 1) as u8);
            if all.contains(x) && x != (n - 1) as u8 {
                let i = choose|i: int| 0 <= i < all.len() && all[i] == x;
                assert(init[i] == x);
            }
        }
    }
}

} // verus!

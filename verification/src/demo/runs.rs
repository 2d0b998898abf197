//! What the voices play over many acts.
use vstd::arithmetic::power2::*;
use vstd::prelude::*;

use crate::demo::act::{Act, Line};
use crate::demo::act;
use crate::demo::args;
use crate::demo::args::{Command, Options};
use crate::demo::cast;
use crate::demo::chords;
use crate::demo::chords::{EmbellishVoice, HarmonyVoice, RootVoice};
use crate::demo::conductor;
use crate::demo::conductor::{Conductor, Knob};
use crate::demo::energy;
use crate::demo::energy::{Bass, Bursts, SharedEnergy};
use crate::demo::messages;
use crate::demo::messages::{ConsumeStage, ConsumerView, MessageView, Producer};
use crate::demo::pattern;
use crate::demo::pattern::{Edition, PatternView, ScriptView};
use crate::demo::phrases;
use crate::demo::phrases::{CallView, CallerView, ResponderView};
use crate::demo::pick;
use crate::demo::solo;
use crate::demo::solo::{Generative, TempoRamp};
use crate::demo::vote;
use crate::demo::vote::{BallotView, CollectiveVote, VoteStage, Voter};
use crate::flt;
use crate::flt::convert;
use crate::flt::order;
use crate::flt::{Flt, TWO53};
use crate::inverse::area;
use crate::text;
use crate::world::WorldView;

verus! {

/// A script after so many acts, while the host goes on.
pub open spec fn script_after(s: ScriptView, n: nat) -> ScriptView
    decreases n,
{
    if n == 0 {
        s
    } else {
        script_after(s, (n - 1) as nat).next(true).0
    }
}

/// A script plays all acts of a round, in order, in every one of its rounds. The
/// act that numbers its round counts from 1.
pub proof fn script_plays_its_rounds(s: ScriptView, r: u64, i: nat)
    requires
        s.wf(),
        s.round == 0,
        s.at == 0,
        r < s.rounds,
        i < s.acts.len(),
    ensures
        ({
            let v = script_after(s, r as nat * s.acts.len() + i);
            let a = v.next(true).1;
            &&& v == ScriptView { round: r, at: i, ..s }
            &&& !(s.acts[i as int] matches Act::Say(Line::Phrase(_))) ==> a == s.acts[i as int]
            &&& s.acts[i as int] matches Act::Say(Line::Phrase(_)) ==> a == Act::Say(
                Line::Phrase((r + 1) as u64),
            )
        }),
    decreases r, i,
{
    let l = s.acts.len();
    if r == 0 && i == 0 {
        assert(0 * l == 0) by (nonlinear_arith);
    } else if i == 0 {
        let q = (r - 1) as u64;
        script_plays_its_rounds(s, q, (l - 1) as nat);
        assert(r as nat * l == q as nat * l + l) by (nonlinear_arith)
            requires
                r == q + 1,
        ;
        let n = (q as nat * l + (l - 1)) as nat;
        assert(r as nat * l + i == n + 1);
        assert(script_after(s, n + 1) == script_after(s, n).next(true).0);
    } else {
        let j = (i - 1) as nat;
        script_plays_its_rounds(s, r, j);
        let n = r as nat * l + j;
        assert(r as nat * l + i == n + 1);
        assert(script_after(s, n + 1) == script_after(s, n).next(true).0);
    }
}

/// After its last round a script plays its tail, in order, and then stops.
pub proof fn script_ends_with_its_tail(s: ScriptView, k: nat)
    requires
        s.wf(),
        s.round == 0,
        s.at == 0,
        s.rounds > 0,
        k <= s.tail.len(),
    ensures
        ({
            let v = script_after(s, s.rounds as nat * s.acts.len() + k);
            let a = v.next(true).1;
            &&& v == ScriptView { round: s.rounds, at: k, ..s }
            &&& k < s.tail.len() ==> a == s.tail[k as int]
            &&& k == s.tail.len() ==> a == Act::Stop && v.next(true).0 == v
        }),
    decreases k,
{
    let l = s.acts.len();
    if k == 0 {
        let q = (s.rounds - 1) as u64;
        script_plays_its_rounds(s, q, (l - 1) as nat);
        assert(s.rounds as nat * l == q as nat * l + l) by (nonlinear_arith)
            requires
                s.rounds == q + 1,
        ;
        let n = (q as nat * l + (l - 1)) as nat;
        assert(s.rounds as nat * l + k == n + 1);
        assert(script_after(s, n + 1) == script_after(s, n).next(true).0);
    } else {
        let j = (k - 1) as nat;
        script_ends_with_its_tail(s, j);
        let n = s.rounds as nat * l + j;
        assert(s.rounds as nat * l + k == n + 1);
        assert(script_after(s, n + 1) == script_after(s, n).next(true).0);
    }
}

/// A script that asks starts no round once the host does not go on; one that
/// has started is played to its end.
pub proof fn script_asks_between_rounds(s: ScriptView)
    requires
        s.wf(),
        s.round < s.rounds,
    ensures
        s.at > 0 || !s.asks ==> s.next(false) == s.next(true),
        s.at == 0 && s.asks && s.tail.len() > 0 ==> s.next(false).1 == s.tail[0],
        s.at == 0 && s.asks && s.tail.len() == 0 ==> s.next(false).1 == Act::Stop,
        s.at == 0 && s.asks ==> s.next(false).0.round == s.rounds,
{
}

/// A pattern after so many acts, while the host goes on.
pub open spec fn pattern_after(p: PatternView, n: nat) -> PatternView
    decreases n,
{
    if n == 0 {
        p
    } else {
        pattern_after(p, (n - 1) as nat).next(true).0
    }
}

/// A pattern plays its notes in turn, over and over, as many as it is to: each
/// starts, sounds, ends and is followed by its rest before the next one starts.
#[verifier::spinoff_prover]
#[verifier::rlimit(60)]
pub proof fn pattern_plays_its_notes(p: PatternView, k: nat)
    requires
        p.wf(),
        p.at == 0,
        !p.over,
        !p.bars,
        !p.told,
        p.player.phase is Idle,
        k < p.count,
    ensures
        ({
            let v = pattern_after(p, 4 * k);
            let (note, velocity) = p.notes[k as int % p.notes.len() as int];
            let v1 = v.next(true).0;
            let v2 = v1.next(true).0;
            let v3 = v2.next(true).0;
            &&& v == PatternView { at: k as u64, player: v.player, ..p }
            &&& v.player.phase is Idle
            &&& v.next(true).1 == (Act::On { note, velocity })
            &&& v1.next(true).1 == act::pause(p.secs, p.hold)
            &&& v2.next(true).1 == (Act::Off { note })
            &&& v3.next(true).1 == act::pause(p.secs, p.rest)
            &&& v3.next(true).0 == PatternView {
                at: (k + 1) as u64,
                player: v3.next(true).0.player,
                ..p
            }
            &&& v3.next(true).0.player.phase is Idle
        }),
    decreases k,
{
    if k > 0 {
        let j = (k - 1) as nat;
        pattern_plays_its_notes(p, j);
        let v = pattern_after(p, 4 * j);
        let v1 = v.next(true).0;
        let v2 = v1.next(true).0;
        let v3 = v2.next(true).0;
        assert(pattern_after(p, 4 * j + 1) == v1);
        assert(pattern_after(p, 4 * j + 2) == v2);
        assert(pattern_after(p, 4 * j + 3) == v3);
        assert(pattern_after(p, 4 * j + 4) == v3.next(true).0);
        assert(4 * j + 4 == 4 * k);
    }
}

/// After its last note a pattern plays its tail, and so it does where it asks
/// before a group and the host does not go on.
pub proof fn pattern_ends_with_its_tail(p: PatternView, go: bool)
    requires
        p.wf(),
        !p.over,
        p.tail_at == 0,
        p.player.phase is Idle,
        p.at >= p.count || (p.asks && !go && p.at as int % p.group as int == 0),
        !p.bars || p.told || p.at == 0 || p.at as int % p.group as int != 0,
    ensures
        p.next(go).0.over,
        p.tail.len() == 0 ==> p.next(go).1 == Act::Stop,
        p.tail.len() > 0 ==> p.next(go).1 == p.tail[0] && p.next(go).0.tail_at == 1,
        p.tail.len() > 1 ==> p.next(go).0.next(go).1 == p.tail[1],
{
}

/// A pattern that announces its groups says after each how many are over, once,
/// and plays as one that does not.
pub proof fn bars_are_counted(p: PatternView, go: bool)
    requires
        p.wf(),
        p.bars,
        p.player.phase is Idle,
        !p.over,
    ensures
        p.at > 0 && p.at as int % p.group as int == 0 && !p.told ==> {
            &&& p.next(go).1 == Act::Say(Line::Bar((p.at / p.group) as u64))
            &&& p.next(go).0 == PatternView { told: true, ..p }
        },
        p.told || p.at == 0 || p.at as int % p.group as int != 0 ==> {
            let q = PatternView { bars: false, ..p };
            &&& p.next(go).1 == q.next(go).1
            &&& p.next(go).0 == PatternView { bars: true, ..q.next(go).0 }
        },
{
}

/// Different knobs have different names.
pub proof fn knobs_have_names_of_their_own(a: Knob, b: Knob, e: Edition)
    requires
        a != b,
    ensures
        a.label(e) != b.label(e),
{
    reveal_strlit("dyn");
    reveal_strlit("dynamics");
    reveal_strlit("den");
    reveal_strlit("density");
    reveal_strlit("reg");
    reveal_strlit("register");
    reveal_strlit("p");
    reveal_strlit("performer_");
    let x = a.label(e);
    let y = b.label(e);
    if a is Performer && b is Performer {
        let i = a->Performer_0 as nat;
        let j = b->Performer_0 as nat;
        text::decimals_differ(i, j);
        let n: int = if e == Edition::Terse {
            1
        } else {
            10
        };
        assert(x.skip(n) =~= text::decimal(i));
        assert(y.skip(n) =~= text::decimal(j));
    } else {
        assert(a is Performer ==> x[0] == 'p');
        assert(b is Performer ==> y[0] == 'p');
        assert(x[0] != y[0] || x[1] != y[1]);
    }
}

/// Of several settings of one knob the last one holds, and a knob that is not
/// set keeps what it had.
pub proof fn last_setting_holds(
    params: Map<Seq<char>, Flt>,
    e: Edition,
    settings: Seq<(Knob, Flt)>,
    k: Knob,
    i: int,
)
    requires
        -1 <= i < settings.len(),
        i >= 0 ==> settings[i].0 == k,
        forall|j: int| i < j < settings.len() ==> (#[trigger] settings[j]).0 != k,
    ensures
        ({
            let after = conductor::settled(params, e, settings);
            let name = k.label(e);
            &&& i >= 0 ==> after.contains_key(name) && after[name] == settings[i].1
            &&& i < 0 ==> after.contains_key(name) == params.contains_key(name)
            &&& i < 0 ==> after[name] == params[name]
        }),
    decreases settings.len(),
{
    if settings.len() > 0 {
        let n = settings.len() - 1;
        let init = settings.drop_last();
        if i < n {
            assert(settings[n].0 != k);
            knobs_have_names_of_their_own(settings[n].0, k, e);
            assert forall|j: int| i < j < init.len() implies (#[trigger] init[j]).0 != k by {
                assert(settings[j].0 != k);
            }
            assert(i >= 0 ==> init[i] == settings[i]);
            last_setting_holds(params, e, init, k, i);
        }
    }
}

/// One phase of the conductor: it is announced with its settings, its tempo is
/// set and announced, eight beats pass, and the next of four phases follows.
pub proof fn conductor_goes_through_its_phases(c: Conductor, params: Map<Seq<char>, Flt>)
    requires
        c.stage is Look,
        c.phase < 4,
    ensures
        ({
            let (c1, p1, a1) = c.after(true, params);
            let (c2, p2, a2) = c1.after(true, p1);
            let (c3, p3, a3) = c2.after(true, p2);
            let (c4, p4, a4) = c3.after(true, p3);
            let (c5, p5, a5) = c4.after(true, p4);
            let next = if c.phase == 3 {
                0u64
            } else {
                (c.phase + 1) as u64
            };
            &&& a1 == Act::Say(Line::Phase(c.phase))
            &&& a2 is Tempo
            &&& a3 == Act::Say(Line::TempoSet(a2->Tempo_0))
            &&& a4 == Act::Beats(convert::of_nat(8))
            &&& a5 == Act::Say(Line::Phase(next))
            &&& p1 == conductor::settled(params, c.edition, conductor::phase_settings(c.phase))
            &&& p4 == p1
            &&& p5 == conductor::settled(
                conductor::settled(p1, c.edition, conductor::reset()),
                c.edition,
                conductor::phase_settings(next),
            )
            &&& c5.phase == next
        }),
{
}

/// The votes for a note are counted one by one.
pub proof fn every_vote_counts(votes: Seq<u8>, note: u8)
    ensures
        vote::tally(votes, note) == votes.to_multiset().count(note),
    decreases votes.len(),
{
    broadcast use vstd::seq_lib::group_to_multiset_ensures;

    if votes.len() > 0 {
        every_vote_counts(votes.drop_last(), note);
        assert(votes =~= votes.drop_last().push(votes.last()));
    }
}

/// One round of a vote: the ballot opens empty for half a beat, then it is shut,
/// the winner is announced with the number of the round, counted from 1, and
/// its note is played; then the next round opens, up to 16.
pub proof fn rounds_of_a_vote(v: CollectiveVote, ballot: BallotView, cast: Seq<u8>, chosen: u8)
    requires
        v.wf(),
        v.stage is Open,
        v.round < 16,
        v.player.phase is Idle,
        cast.len() > 0,
    ensures
        ({
            let (v1, b1, a1) = v.after(true, ballot, chosen);
            let full = BallotView { votes: cast, ..b1 };
            let (v2, b2, a2) = v1.after(true, full, chosen);
            let (v3, b3, a3) = v2.after(true, b2, chosen);
            let (v4, b4, a4) = v3.after(true, b3, chosen);
            let (v5, b5, a5) = v4.after(true, b4, chosen);
            let (v6, b6, a6) = v5.after(true, b5, chosen);
            &&& b1.open
            &&& b1.votes.len() == 0
            &&& a1 == Act::Beats(Flt::half())
            &&& !b2.open
            &&& b2.votes == cast
            &&& a2 == Act::Say(Line::Winner((v.round + 1) as u64, chosen))
            &&& a3 is On
            &&& a3->On_note == chosen
            &&& a4 is Beats
            &&& a5 == (Act::Off { note: chosen })
            &&& a6 is Beats
            &&& v6.stage is Open
            &&& v6.round == v.round + 1
            &&& v6.player.phase is Idle
            &&& b6 == b2
        }),
{
}

/// A round without votes is passed over, and after 16 rounds the vote is over.
pub proof fn votes_come_to_an_end(v: CollectiveVote, ballot: BallotView, chosen: u8)
    requires
        v.wf(),
        v.player.phase is Idle,
    ensures
        v.stage is Open && v.round == 16 ==> v.after(true, ballot, chosen).2 == Act::Say(
            Line::Finished,
        ) && v.after(true, ballot, chosen).0.stage is Over,
        v.stage is Open ==> v.after(false, ballot, chosen).2 == Act::Say(Line::Finished),
        v.stage is Count && ballot.votes.len() == 0 && v.round < 15 ==> {
            let (u, b, a) = v.after(true, ballot, chosen);
            &&& a == Act::Beats(Flt::half())
            &&& b.open && b.votes.len() == 0
            &&& u.round == v.round + 1
            &&& u.stage is Count
        },
        v.stage is Over ==> v.after(true, ballot, chosen) == (v, ballot, Act::Stop),
{
}

/// The passing tones are in order, the lowest first.
pub proof fn passing_tones_go_up(sounding: Set<u8>, n: int, i: int, j: int)
    requires
        n <= 84,
        0 <= i < j < chords::passing(sounding, n).len(),
    ensures
        chords::passing(sounding, n)[i] < chords::passing(sounding, n)[j] < n,
    decreases n,
{
    if n > 60 {
        let init = chords::passing(sounding, n - 1);
        let all = chords::passing(sounding, n);
        if j < init.len() {
            passing_tones_go_up(sounding, n - 1, i, j);
        } else {
            assert(init[i] == all[i]);
            assert(init.contains(init[i]));
            chords::passing_tones_avoid_the_chord(sounding, n - 1, init[i]);
        }
    }
}

/// The harmony to a low note: its third and its fifth, an octave up, start one
/// after the other, sound together for two and a half beats, and end; they count
/// as sounding in between and not after.
pub proof fn harmony_comes_and_goes(v: HarmonyVoice, root: u8, sounding: Set<u8>)
    requires
        v.stage is Look,
        root < 60,
        sounding.contains(root),
        !sounding.contains((root + 16) as u8),
        !sounding.contains((root + 19) as u8),
    ensures
        ({
            let third = (root + 16) as u8;
            let fifth = (root + 19) as u8;
            let (v1, s1, a1) = v.after(true, Some(root), sounding);
            let (v2, s2, a2) = v1.after(true, None, s1);
            let (v3, s3, a3) = v2.after(true, None, s2);
            let (v4, s4, a4) = v3.after(true, None, s3);
            let (v5, s5, a5) = v4.after(true, None, s4);
            let (v6, s6, a6) = v5.after(true, None, s5);
            &&& a1 is On && a1->On_note == third
            &&& a2 is On && a2->On_note == fifth
            &&& a3 == Act::Beats(convert::ratio_of(25, 10))
            &&& s3.contains(third) && s3.contains(fifth)
            &&& a4 == (Act::Off { note: third })
            &&& a5 == (Act::Off { note: fifth })
            &&& s5 == sounding
            &&& a6 == Act::Beats(convert::ratio_of(15, 10))
            &&& s6 == sounding
            &&& v6.stage is Look
        }),
{
    let third = (root + 16) as u8;
    let fifth = (root + 19) as u8;
    assert(third != fifth);
    assert(sounding.insert(third).insert(fifth).remove(third).remove(fifth) =~= sounding);
}

/// A new root replaces all notes that sound by itself and its octave, and is
/// announced; the roots go round in fives.
pub proof fn roots_go_round(v: RootVoice, sounding: Set<u8>)
    requires
        !v.say,
        v.player.phase is Idle,
        v.count < u64::MAX - 5,
    ensures
        ({
            let (v1, s1, a1) = v.after(true, sounding);
            let (v2, s2, a2) = v1.after(true, s1);
            let later = RootVoice { count: (v.count + 5) as u64, ..v };
            &&& a1 is On
            &&& chords::roots().contains(a1->On_note)
            &&& forall|n: u8| #[trigger]
                s1.contains(n) <==> n == a1->On_note || n == a1->On_note + 12
            &&& a2 == Act::Say(Line::Root(a1->On_note))
            &&& s2 == s1
            &&& v1.count == v.count + 1
            &&& later.after(true, sounding).2 == a1
        }),
{
    let c = v.count as int;
    assert((c + 5) % 5 == c % 5) by {
        vstd::arithmetic::div_mod::lemma_mod_add_multiples_vanish(c, 5);
    }
    let r = chords::roots();
    assert(r[0] == 48 && r[1] == 50 && r[2] == 52 && r[3] == 53 && r[4] == 55);
    assert(r[c % 5] == v.root());
}

/// An embellishment is a passing tone: it starts, sounds, ends, and a pause
/// follows; then the voice looks again.
pub proof fn embellishments_are_passing_tones(
    v: EmbellishVoice,
    w: WorldView,
    ctx: u64,
    sounding: Set<u8>,
)
    requires
        v.stage is Look,
        chords::passing(sounding, 84).len() > 0,
    ensures
        ({
            let (v1, w1, a1) = v.after(w, ctx, true, sounding);
            let (v2, w2, a2) = v1.after(w1, ctx, true, sounding);
            let (v3, w3, a3) = v2.after(w2, ctx, true, sounding);
            let (v4, w4, a4) = v3.after(w3, ctx, true, sounding);
            &&& a1 is On
            &&& 60 <= a1->On_note < 84
            &&& !chords::in_chord(sounding, a1->On_note)
            &&& a2 == Act::Beats(convert::ratio_of(15, 100))
            &&& a3 == (Act::Off { note: a1->On_note })
            &&& a4 == Act::Beats(convert::ratio_of(35, 100))
            &&& v4.stage is Look
            &&& w4 == w1
        }),
{
    let tones = chords::passing(sounding, 84);
    let i = w.picked(ctx, tones.len() as int).1;
    lemma_passing_len(sounding, 84);
    pick::pick_is_a_choice(w, ctx, tones.len() as int);
    assert(tones.contains(tones[i]));
    chords::passing_tones_avoid_the_chord(sounding, 84, tones[i]);
}

proof fn lemma_passing_len(sounding: Set<u8>, n: int)
    requires
        n <= 84,
    ensures
        chords::passing(sounding, n).len() <= 24,
        n <= 60 ==> chords::passing(sounding, n).len() == 0,
        n > 60 ==> chords::passing(sounding, n).len() <= n - 60,
    decreases n,
{
    if n > 60 {
        lemma_passing_len(sounding, n - 1);
    }
}

/// The voice that shows the energy starts three others, then says it 20 times, a
/// beat apart, and finishes.
pub proof fn energy_is_shown_twenty_times(s: SharedEnergy, e: Flt, k: u64)
    requires
        !s.ended,
        k < 20,
    ensures
        s.at < 3 ==> s.after(true, e).1 == Act::Fork(s.at),
        s.at < 43 ==> s.after(true, e).0.at == s.at + 1,
        s.at == 3 + 2 * k ==> s.after(true, e).1 == Act::Say(Line::Energy(e)),
        s.at == 4 + 2 * k ==> s.after(true, e).1 == Act::Beats(Flt::one()),
        s.at == 43 ==> {
            let (t, a) = s.after(true, e);
            a == Act::Say(Line::Finished) && t.after(true, e).1 == Act::Stop
        },
        s.at == 3 + 2 * k ==> s.after(false, e).1 == Act::Say(Line::Finished),
{
    assert((3 + 2 * k) % 2 == 1);
    assert((4 + 2 * k) % 2 == 0);
}

/// Energy goes up until it is full, and down until it is a tenth; it never moves
/// the other way.
pub proof fn energy_turns_at_its_bounds(e: Flt, up: bool)
    requires
        convert::ratio_of(1, 10).at_most(e),
        e.at_most(Flt::one()),
        e.finite(),
    ensures
        ({
            let (x, on) = energy::modulated(e, up);
            &&& up ==> e.at_most(x)
            &&& !up ==> x.at_most(e)
            &&& up && !on ==> x.val() == Flt::one().val()
            &&& !up && on ==> x.val() == convert::ratio_of(1, 10).val()
            &&& up && on ==> x.less(Flt::one())
            &&& !up && !on ==> convert::ratio_of(1, 10).less(x)
        }),
{
    order::lemma_one();
    order::ratio_is_at_most_one(1, 10);
    order::ratio_is_at_most_one(5, 100);
    order::ratio_is_at_most_one(3, 100);
    if up {
        order::sum_never_shrinks(e, convert::ratio_of(5, 100));
    } else {
        order::difference_never_grows(e, convert::ratio_of(3, 100));
    }
    energy::energy_stays_in_bounds(e, up);
}

/// The bass goes round four notes.
pub proof fn bass_goes_round(b: Bass, e: Flt)
    requires
        b.player.phase is Idle,
        b.count < u64::MAX - 4,
    ensures
        ({
            let (c, a) = b.after(true, e);
            let later = Bass { count: (b.count + 4) as u64, ..b };
            &&& a is On
            &&& energy::bass_notes().contains(a->On_note)
            &&& c.count == b.count + 1
            &&& later.after(true, e).1 == a
        }),
{
    let c = b.count as int;
    assert((c + 4) % 4 == c % 4) by {
        vstd::arithmetic::div_mod::lemma_mod_add_multiples_vanish(c, 4);
    }
    let r = energy::bass_notes();
    assert(r[0] == 36 && r[1] == 38 && r[2] == 40 && r[3] == 41);
    assert(r.contains(r[c % 4]));
}

/// A burst plays the notes that it is to, one by one, each of the scale and as
/// loud as the burst, and ends with half a beat of rest; whoever stops the
/// program lets it end first.
pub proof fn bursts_play_their_notes(b: Bursts, w: WorldView, ctx: u64, go: bool, e: Flt)
    requires
        b.playing,
        b.player.phase is Idle,
    ensures
        ({
            let (c, v, x, a) = b.after(w, ctx, go, e);
            &&& b.left > 0 ==> {
                &&& a is On
                &&& energy::major().contains(a->On_note)
                &&& a->On_velocity == b.velocity
                &&& c.left == b.left - 1
                &&& c.playing
                &&& x == e
            }
            &&& b.left == 0 ==> a == Act::Beats(Flt::half()) && !c.playing && v == w
        }),
{
    pick::pick_is_a_choice(w, ctx, 8);
    let i = w.picked(ctx, 8).1;
    assert(energy::major().contains(energy::major()[i]));
}

/// The reader of messages takes them in order: what it leaves is what comes
/// after those that it has read, and it reads one at least where there is one.
pub proof fn messages_are_read_in_order(c: ConsumerView, q: Seq<MessageView>) -> (n: nat)
    ensures
        n <= q.len(),
        c.read(q).1 == q.skip(n as int),
        q.len() > 0 ==> n > 0,
        q.len() == 0 ==> c.read(q).2 == Act::Beats(convert::ratio_of(1, 10)),
    decreases q.len(),
{
    if q.len() == 0 {
        assert(q.skip(0) =~= q);
        0
    } else {
        let tail = q.skip(1);
        if q[0] is Rest {
            let m = messages_are_read_in_order(ConsumerView { rest: true, ..c }, tail);
            assert(tail.skip(m as int) =~= q.skip(m as int + 1));
            m + 1
        } else if q[0] is NoteEvent && c.rest {
            let m = messages_are_read_in_order(ConsumerView { rest: false, ..c }, tail);
            assert(tail.skip(m as int) =~= q.skip(m as int + 1));
            m + 1
        } else {
            1
        }
    }
}

/// A rest takes the place of the next note, and of no other; an accent makes the
/// next note that sounds louder by 40, up to 127, and no other.
pub proof fn rests_and_accents_are_for_the_next_note(
    c: ConsumerView,
    note: u8,
    velocity: u8,
    q: Seq<MessageView>,
)
    requires
        velocity <= 127,
    ensures
        ({
            let n = MessageView::NoteEvent { note, velocity };
            let (c1, q1, a1) = c.read(seq![n] + q);
            let (c2, q2, a2) = ConsumerView { rest: false, ..c }.read(
                seq![MessageView::Rest, n] + q,
            );
            let (c3, q3, a3) = c.read(seq![MessageView::Accent, n] + q);
            &&& !c.rest ==> {
                &&& a1 is On && a1->On_note == note
                &&& !c.accent ==> a1->On_velocity == velocity
                &&& c.accent && velocity <= 87 ==> a1->On_velocity == velocity + 40
                &&& c.accent && velocity > 87 ==> a1->On_velocity == 127
                &&& !c1.accent
                &&& c1.stage == ConsumeStage::Sound(note)
                &&& q1 == q
            }
            &&& (c2, q2, a2) == ConsumerView { rest: false, ..c }.read(q)
            &&& a3 == Act::Say(Line::Accent) && c3.accent && q3 == seq![n] + q
        }),
{
    let n = MessageView::NoteEvent { note, velocity };
    let x = seq![n] + q;
    let y = seq![MessageView::Rest, n] + q;
    let z = seq![MessageView::Accent, n] + q;
    assert(x.skip(1) =~= q);
    assert(y.skip(1) =~= x);
    assert(z.skip(1) =~= x);
    let plain = ConsumerView { rest: false, ..c };
    let resting = ConsumerView { rest: true, ..c };
    assert(x[0] == n && y[0] == MessageView::Rest && z[0] == MessageView::Accent);
    assert(resting.read(x) == plain.read(q));
    assert(plain.read(y) == resting.read(x));
}

/// A responder after so many acts, while the host goes on.
pub open spec fn responder_after(
    r: ResponderView,
    w: WorldView,
    ctx: u64,
    call: CallView,
    n: nat,
) -> (ResponderView, WorldView)
    decreases n,
{
    if n == 0 {
        (r, w)
    } else {
        let (s, v) = responder_after(r, w, ctx, call, (n - 1) as nat);
        (s.after(v, ctx, true, call).0, s.after(v, ctx, true, call).1)
    }
}

/// A call is answered note for note: each note of the phrase in order, an octave
/// up.
#[verifier::spinoff_prover]
#[verifier::rlimit(60)]
pub proof fn calls_are_answered_an_octave_up(
    r: ResponderView,
    w: WorldView,
    ctx: u64,
    call: CallView,
    k: nat,
)
    requires
        r.wf(),
        r.stage is Play,
        r.at == 0,
        r.player.phase is Idle,
        k < r.phrase.len(),
    ensures
        ({
            let (s, v) = responder_after(r, w, ctx, call, 4 * k);
            let a = s.after(v, ctx, true, call).3;
            &&& s == ResponderView { at: k, player: s.player, ..r }
            &&& s.player.phase is Idle
            &&& a is On
            &&& a->On_note == r.phrase[k as int].0 + 12
        }),
    decreases k,
{
    assert(r.phrase[k as int].0 <= 243);
    if k > 0 {
        let j = (k - 1) as nat;
        calls_are_answered_an_octave_up(r, w, ctx, call, j);
        let (s0, v0) = responder_after(r, w, ctx, call, 4 * j);
        let s1 = s0.after(v0, ctx, true, call);
        let s2 = s1.0.after(s1.1, ctx, true, call);
        let s3 = s2.0.after(s2.1, ctx, true, call);
        let s4 = s3.0.after(s3.1, ctx, true, call);
        assert(responder_after(r, w, ctx, call, 4 * j + 1) == (s1.0, s1.1));
        assert(responder_after(r, w, ctx, call, 4 * j + 2) == (s2.0, s2.1));
        assert(responder_after(r, w, ctx, call, 4 * j + 3) == (s3.0, s3.1));
        assert(responder_after(r, w, ctx, call, 4 * j + 4) == (s4.0, s4.1));
        assert(4 * j + 4 == 4 * k);
    }
}

/// A generated melody has 16 notes of the scale: each is announced with its
/// length, and then played as announced.
pub proof fn melodies_are_announced(g: Generative, w: WorldView, ctx: u64)
    requires
        g.ready is None,
        g.player.phase is Idle,
        !g.ended,
    ensures
        ({
            let (h, v, a) = g.after(w, ctx, true);
            let (h2, v2, a2) = h.after(v, ctx, true);
            &&& g.count < 16 ==> {
                &&& a is Say
                &&& a->Say_0 is Picked
                &&& solo::pentatonic().contains(a->Say_0->Picked_0)
                &&& a2 is On
                &&& a2->On_note == a->Say_0->Picked_0
                &&& h.count == g.count + 1
                &&& h2.count == h.count
                &&& h2.ready is None
                &&& v2 == v
            }
            &&& g.count >= 16 ==> a == Act::Say(Line::Finished) && v == w && a2 == Act::Stop
        }),
{
    pick::pick_is_a_choice(w, ctx, 10);
    let i = w.picked(ctx, 10).1;
    assert(solo::pentatonic().contains(solo::pentatonic()[i]));
}

/// The producer sends one note or rest each half beat, a note of its scale, after
/// an accent every fourth time. Every eighth time it first moves to the next of
/// three scales, says so, and sends that scale; then it goes on.
pub proof fn producer_keeps_its_measure(p: Producer, w: WorldView, ctx: u64)
    requires
        p.beat < u64::MAX,
        p.scale < 3,
    ensures
        ({
            let (q, v, sent, a) = p.after(w, ctx, true);
            let turn = !p.told && p.beat > 0 && p.beat % 8 == 0;
            &&& turn ==> {
                &&& a == Act::Say(Line::ScaleChanges)
                &&& q.scale == if p.scale == 2 {
                    0u64
                } else {
                    (p.scale + 1) as u64
                }
                &&& sent == seq![MessageView::ChangeScale(messages::scale_of(q.scale))]
                &&& q.beat == p.beat
                &&& q.told
                &&& v == w
                &&& q.after(w, ctx, false).3 == Act::Beats(Flt::half())
            }
            &&& !turn ==> {
                &&& a == Act::Beats(Flt::half())
                &&& q.beat == p.beat + 1
                &&& !q.told
                &&& q.scale == p.scale
                &&& sent.len() == if p.beat % 4 == 0 {
                    2nat
                } else {
                    1nat
                }
                &&& p.beat % 4 == 0 ==> sent[0] is Accent
                &&& sent.last() is Rest || (sent.last() is NoteEvent && messages::scale_of(
                    p.scale,
                ).contains(sent.last()->note))
            }
        }),
{
    let v = w.drawn(ctx).0;
    pick::pick_is_a_choice(v, ctx, 7);
    let i = v.picked(ctx, 7).1;
    let scale = messages::scale_of(p.scale);
    assert(scale.len() == 7);
    assert(scale.contains(scale[i]));
}

/// What the caller plays, it keeps, in order, and leaves as it was played when
/// the phrase is over.
pub proof fn calls_are_kept_as_played(
    c: CallerView,
    w: WorldView,
    ctx: u64,
    go: bool,
    call: CallView,
)
    requires
        c.playing,
        c.player.phase is Idle,
    ensures
        ({
            let (d, v, left, a) = c.after(w, ctx, go, call);
            &&& c.left > 0 ==> {
                &&& a is On
                &&& d.phrase.len() == c.phrase.len() + 1
                &&& d.phrase.drop_last() == c.phrase
                &&& d.phrase.last().0 == a->On_note
                &&& energy::major().contains(a->On_note)
                &&& d.left == c.left - 1
                &&& left == call
            }
            &&& c.left == 0 ==> {
                &&& left.ready
                &&& left.phrase == c.phrase
                &&& d.phrase.len() == 0
                &&& !d.playing
                &&& a == Act::Beats(convert::of_nat(4))
                &&& v == w
            }
        }),
{
    pick::pick_is_a_choice(w, ctx, 8);
    let i = w.picked(ctx, 8).1;
    assert(energy::major().contains(energy::major()[i]));
    let d = c.after(w, ctx, go, call).0;
    if c.left > 0 {
        assert(d.phrase.drop_last() =~= c.phrase);
    }
}

/// A call has three to five notes.
pub proof fn calls_have_three_to_five_notes(c: CallerView, w: WorldView, ctx: u64, call: CallView)
    requires
        !c.playing,
        c.player.phase is Idle,
    ensures
        ({
            let (d, _, left, a) = c.after(w, ctx, true, call);
            &&& a == Act::Say(Line::Calling)
            &&& d.playing
            &&& 3 <= d.left <= 5
            &&& left == call
        }),
{
    pick::pick_is_a_choice(w, ctx, 3);
}

/// A call is taken once: the responder takes it when it is ready, and then it is
/// not ready any more.
pub proof fn calls_are_taken_once(r: ResponderView, go: bool, call: CallView)
    ensures
        ({
            let (s, left, a) = r.answered(go, call);
            &&& call.ready && call.phrase.len() > 0 ==> {
                &&& s.phrase == call.phrase
                &&& s.at == 0
                &&& s.stage is Play
                &&& a == Act::Say(Line::Responding)
            }
            &&& !left.ready
            &&& left.phrase == call.phrase
            &&& !call.ready ==> left == call && s.stage is Await && a is Beats
        }),
{
}

/// The beats of the tempo ramp: the ramp starts, then each beat is announced with
/// its number, counted from 0, and played, as long as there is time; then it says
/// how many there were.
pub proof fn ramp_counts_its_beats(r: TempoRamp, time: Flt)
    requires
        r.player.phase is Idle,
        r.count < u64::MAX,
    ensures
        r.stage is Ramp ==> r.after(true, time).1 is Ramp && r.after(true, time).0.stage is Check,
        r.stage is Check && r.in_time(time) ==> {
            let (s, a) = r.after(true, time);
            let (t, b) = s.after(true, time);
            &&& a == Act::Say(Line::Beat(r.count))
            &&& b is On
            &&& t.count == r.count + 1
            &&& t.stage is Check
        },
        r.stage is Check && !r.in_time(time) ==> {
            let (s, a) = r.after(true, time);
            a == Act::Say(Line::BeatsPlayed(r.count)) && s.after(true, time).1 == Act::Stop
        },
{
}

/// No two voices of a piece play the same part.
pub proof fn voices_have_parts_of_their_own(piece: usize, a: u64, b: u64)
    requires
        a != b,
        cast::joining(piece, a) is Some,
        cast::joining(piece, b) is Some,
    ensures
        cast::joining(piece, a) != cast::joining(piece, b),
{
}

/// Every voice of a piece is started by its main voice: among the acts of those
/// that have fixed acts, and in turn by the others.
pub proof fn every_voice_is_started(
    k: u64,
    sound: Flt,
    silence: Flt,
    last: Flt,
    s: SharedEnergy,
    v: CollectiveVote,
    ballot: BallotView,
    e: Flt,
)
    requires
        s.at == k,
        v.stage == VoteStage::Start(k),
        v.player.phase is Idle,
    ensures
        k < cast::side_voices(2) ==> pattern::polyrhythm().contains(Act::Fork(k)),
        k < cast::side_voices(4) ==> pattern::phrase().contains(Act::Fork(k)),
        k < cast::side_voices(6) ==> pattern::cancellation(sound, silence, last).contains(
            Act::Fork(k),
        ),
        k < cast::side_voices(7) ==> s.after(true, e).1 == Act::Fork(k),
        k < cast::side_voices(8) ==> chords::chord_memory().contains(Act::Fork(k)),
        k < cast::side_voices(9) ==> messages::message_queue().contains(Act::Fork(k)),
        k < cast::side_voices(10) ==> phrases::call_response().contains(Act::Fork(k)),
        k < cast::side_voices(11) ==> v.after(true, ballot, 0).2 == Act::Fork(k),
        k < cast::side_voices(12) ==> conductor::conducted().contains(Act::Fork(k)),
{
    let i = k as int;
    assert(k < 2 ==> pattern::polyrhythm()[i] == Act::Fork(k));
    assert(k < 2 ==> pattern::phrase()[i + 2] == Act::Fork(k));
    assert(k < 1 ==> pattern::cancellation(sound, silence, last)[1] == Act::Fork(k));
    assert(k < 3 ==> chords::chord_memory()[i] == Act::Fork(k));
    assert(k < 2 ==> messages::message_queue()[i] == Act::Fork(k));
    assert(k < 2 ==> phrases::call_response()[i] == Act::Fork(k));
    assert(k < 4 ==> conductor::conducted()[i] == Act::Fork(k));
}

/// A number in decimal is read as that number.
pub proof fn numbers_are_read_as_written(n: usize)
    ensures
        args::number(text::decimal(n as nat)) == Some(n),
{
    text::decimal_reads_back(n as nat);
}

/// What the options ask for: help before all else, then the list, then the first
/// thing that is missing or wrong, and a piece on a device where all is well.
pub proof fn options_are_asked_for_in_order(o: Options, e: Edition)
    ensures
        ({
            let c = o.asked(e);
            let fine = match o.piece {
                Some(p) => e == Edition::Terse || 1 <= p <= args::pieces(e),
                None => false,
            };
            &&& c is Help <==> o.help
            &&& c is List <==> !o.help && o.list
            &&& c is NoDevice <==> !o.help && !o.list && o.device is None
            &&& c is NoPiece <==> !o.help && !o.list && o.device is Some && o.piece is None
            &&& c is BadPiece <==> !o.help && !o.list && o.device is Some && o.piece is Some
                && !fine
            &&& c matches Command::BadPiece(p) ==> o.piece == Some(p)
            &&& c is Play <==> !o.help && !o.list && o.device is Some && fine
            &&& c matches Command::Play { device, piece } ==> o.device == Some(device) && o.piece
                == Some(piece)
        }),
{
}

/// A whole number as a double has just that value.
proof fn lemma_of_nat(n: int)
    requires
        0 <= n < TWO53,
    ensures
        convert::of_nat(n).finite(),
        !convert::of_nat(n).neg(),
        convert::of_nat(n).val() == n * pow2(1074),
{
    lemma_pow2_pos(1074);
    let m = convert::lemma_representable(n, 1074);
    convert::lemma_exact(m, 1);
    assert(flt::weight(m) * 1 == flt::weight(m));
    assert(convert::of_nat(n) == flt::signed(false, m));
    flt::lemma_weight_step(m);
    order::lemma_zero();
    assert(n * pow2(1074) >= 0) by (nonlinear_arith)
        requires
            n >= 0,
            pow2(1074) > 0,
    ;
}

/// The whole part grows with the number.
proof fn lemma_whole_grows(x: Flt, y: Flt)
    requires
        Flt::zero().at_most(x),
        x.at_most(y),
    ensures
        x.whole() <= y.whole(),
{
    order::lemma_zero();
    lemma_pow2_pos(1074);
    flt::lemma_weight_step(x.mag());
    flt::lemma_weight_step(y.mag());
    let p = pow2(1074) as int;
    let a = flt::weight(x.mag());
    let b = flt::weight(y.mag());
    x.lemma_whole();
    y.lemma_whole();
    if !x.neg() && !y.neg() {
        assert(a / p <= b / p) by (nonlinear_arith)
            requires
                0 <= a <= b,
                p > 0,
        ;
    } else if y.neg() {
        assert(y.val() == 0 && x.val() == 0);
        assert(a == 0);
        assert(a / p == 0) by (nonlinear_arith)
            requires
                a == 0,
                p > 0,
        ;
    }
}

/// How loud a voice is grows with its energy, from its lowest on.
pub proof fn more_energy_is_louder(low: int, range: int, e: Flt, f: Flt)
    requires
        0 <= low <= 127,
        0 < range <= 127,
        Flt::zero().at_most(e),
        e.at_most(f),
        e.finite(),
        f.finite(),
    ensures
        low <= energy::loudness(low, range, e) <= energy::loudness(low, range, f),
{
    let l = convert::of_nat(low);
    let r = convert::of_nat(range);
    let p = pow2(1074) as int;
    lemma_pow2_pos(1074);
    order::lemma_zero();
    lemma_of_nat(low);
    lemma_of_nat(range);
    assert(r.val() >= 0 && l.val() >= 0) by (nonlinear_arith)
        requires
            r.val() == range * p,
            l.val() == low * p,
            range > 0,
            low >= 0,
            p > 0,
    ;
    order::product_is_monotone(r, e, f);
    area::lemma_times_turns(e, r);
    area::lemma_times_turns(f, r);
    order::sum_grows(l, e.times(r), f.times(r));
    order::sum_never_shrinks(l, e.times(r));
    let x = l.plus(e.times(r));
    let y = l.plus(f.times(r));
    lemma_whole_grows(l, x);
    lemma_whole_grows(x, y);
    assert(l.whole() == low) by {
        assert(flt::weight(l.mag()) == low * p);
        assert(low * p / p == low) by (nonlinear_arith)
            requires
                p > 0,
        ;
    }
}

/// A voter of the first kind votes for low notes, one of the second for those in
/// the middle, and one of the third for high ones; no two kinds share a note.
pub proof fn voters_have_notes_of_their_own(v: Voter, w: WorldView, ctx: u64, ballot: BallotView)
    requires
        ballot.open,
    ensures
        ({
            let (u, b, a) = v.after(w, ctx, true, ballot);
            let cast = b.votes.last();
            &&& b.votes.len() == ballot.votes.len() + 1
            &&& b.votes.drop_last() == ballot.votes
            &&& b.open
            &&& a == Act::Beats(Flt::half())
            &&& energy::major().contains(cast)
            &&& v.id == 0 ==> cast < 65
            &&& v.id == 1 ==> 65 <= cast < 69
            &&& v.id > 1 ==> 69 <= cast
        }),
{
    pick::pick_is_a_choice(w, ctx, vote::choices(v.id));
    let scale = energy::major();
    assert(scale[0] == 60 && scale[1] == 62 && scale[2] == 64 && scale[3] == 65);
    assert(scale[4] == 67 && scale[5] == 69 && scale[6] == 71 && scale[7] == 72);
    let i = w.picked(ctx, vote::choices(v.id)).1;
    let b = v.after(w, ctx, true, ballot).1;
    assert(scale.contains(scale[vote::lowest(v.id) + i]));
    assert(b.votes.drop_last() =~= ballot.votes);
}

} // verus!

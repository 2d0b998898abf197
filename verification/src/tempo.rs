//! Tempo over time, as a sequence of segments in which the beats per minute
//! change linearly, and the conversions between seconds and beats.
use std::collections::HashMap;
use vstd::arithmetic::mul::lemma_mul_is_commutative;
use vstd::arithmetic::power2::pow2;
use vstd::prelude::*;

use crate::flt::error;
use crate::flt::order;
use crate::flt::Flt;

verus! {

broadcast use vstd::std_specs::hash::group_hash_axioms;

/// The number itself where it is positive and finite, else 1.
pub open spec fn positive(x: Flt) -> Flt {
    if x.finite() && Flt::zero().less(x) {
        x
    } else {
        Flt::one()
    }
}

/// The number itself where it is positive and finite, else 1.
pub fn clamp_pos(x: Flt) -> (r: Flt)
    ensures
        r == positive(x),
{
    if x.is_finite() && Flt::zero().lt(x) {
        x
    } else {
        Flt::one()
    }
}

/// A stretch of time in which the tempo goes from one value to another.
#[derive(Clone, Copy, Debug, PartialEq, Eq, Structural)]
pub struct TempoSegment {
    /// When it starts, in seconds.
    pub t0: Flt,
    /// When it ends; infinite for the last segment.
    pub t1: Flt,
    /// The tempo at its start.
    pub bpm0: Flt,
    /// The tempo at its end.
    pub bpm1: Flt,
    /// The beats that passed before it.
    pub beats0: Flt,
    /// The beats that have passed at its end; infinite for the last segment.
    pub beats1: Flt,
}

impl TempoSegment {
    /// How fast the tempo changes; 0 where the segment has no finite length.
    pub open spec fn slope(self) -> Flt {
        let l = self.t1.minus(self.t0);
        if l.finite() && Flt::zero().less(l) {
            self.bpm1.minus(self.bpm0).over(l)
        } else {
            Flt::zero()
        }
    }

    /// The tempo at `t`.
    pub open spec fn bpm_at(self, t: Flt) -> Flt {
        if !self.t1.finite() || self.t1.val() == self.t0.val() {
            self.bpm0
        } else {
            let a = t.minus(self.t0).over(self.t1.minus(self.t0));
            self.bpm0.plus(self.bpm1.minus(self.bpm0).times(a))
        }
    }

    /// The beats that have passed at `t`: the integral of the tempo.
    pub open spec fn beats_at(self, t: Flt) -> Flt {
        let dt = t.minus(self.t0).larger(Flt::zero());
        self.beats0.plus(area(self.bpm0, self.slope(), dt))
    }

    /// When `beats` have passed: the inverse of the integral.
    pub open spec fn time_at(self, beats: Flt) -> Flt {
        let delta = beats.minus(self.beats0);
        let k = self.slope();
        let c = delta.times(Flt::sixty());
        if delta.at_most(Flt::zero()) {
            self.t0
        } else if crate::flt::signed(false, k.mag()).less(Flt::tiny()) {
            self.t0.plus(c.over(positive(self.bpm0)))
        } else {
            let disc = self.bpm0.times(self.bpm0).plus(Flt::two().times(k).times(c));
            let root = disc.larger(Flt::zero()).root();
            let dt = self.bpm0.negated().plus(root).over(k);
            self.t0.plus(dt.larger(Flt::zero()))
        }
    }

    fn rate(self) -> (r: Flt)
        ensures
            r == self.slope(),
    {
        let l: Flt = self.t1.difference(self.t0);
        if l.is_finite() && Flt::zero().lt(l) {
            self.bpm1.difference(self.bpm0).quotient(l)
        } else {
            Flt::zero()
        }
    }
}

/// The beats in `dt` seconds at tempo `bpm` that changes by `k` a second.
pub open spec fn area(bpm: Flt, k: Flt, dt: Flt) -> Flt {
    bpm.times(dt).plus(Flt::half().times(k).times(dt).times(dt)).over(Flt::sixty())
}

fn area_of(bpm: Flt, k: Flt, dt: Flt) -> (r: Flt)
    ensures
        r == area(bpm, k, dt),
{
    let square: Flt = Flt::half().product(k).product(dt).product(dt);
    bpm.product(dt).sum(square).quotient(Flt::sixty())
}

/// The last of the first `n` segments that has started by `t`, else the
/// first.
pub open spec fn last_started(segs: Seq<TempoSegment>, t: Flt, n: int) -> int
    decreases n,
{
    if n <= 1 {
        0
    } else if segs[n - 1].t0.at_most(t) {
        n - 1
    } else {
        last_started(segs, t, n - 1)
    }
}

/// The segment that `t` lies in: the last one that has started. A time before
/// 0 counts to the first.
pub open spec fn segment_index(segs: Seq<TempoSegment>, t: Flt) -> int {
    last_started(segs, t, segs.len() as int)
}

/// The segment that `beats` fall into, found by halving: the first one that
/// ends at `beats` or later, where those ends are in order.
pub open spec fn beat_segment(segs: Seq<TempoSegment>, beats: Flt, lo: int, hi: int) -> int
    decreases hi - lo,
{
    if lo >= hi {
        lo
    } else {
        let mid = lo + (hi - lo) / 2;
        if beats.at_most(segs[mid].beats1) {
            beat_segment(segs, beats, lo, mid)
        } else {
            beat_segment(segs, beats, mid + 1, hi)
        }
    }
}

/// The tempo at `t`.
pub open spec fn bpm_at(segs: Seq<TempoSegment>, t: Flt) -> Flt {
    segs[segment_index(segs, t)].bpm_at(t)
}

/// The beats that have passed at `t`.
pub open spec fn beats_at(segs: Seq<TempoSegment>, t: Flt) -> Flt {
    segs[segment_index(segs, t)].beats_at(t)
}

/// When `beats` have passed.
pub open spec fn time_at(segs: Seq<TempoSegment>, beats: Flt) -> Flt {
    if !beats.finite() {
        Flt::infinity()
    } else if beats.at_most(Flt::zero()) {
        Flt::zero()
    } else {
        segs[beat_segment(segs, beats, 0, segs.len() - 1)].time_at(beats)
    }
}

/// A segment that goes on at one tempo from `t`.
pub open spec fn steady(t: Flt, bpm: Flt, beats: Flt) -> TempoSegment {
    TempoSegment {
        t0: t,
        t1: Flt::infinity(),
        bpm0: bpm,
        bpm1: bpm,
        beats0: beats,
        beats1: Flt::infinity(),
    }
}

/// The segments up to `t`, the last of them ending there.
pub open spec fn cut(segs: Seq<TempoSegment>, t: Flt) -> Seq<TempoSegment> {
    let i = segment_index(segs, t);
    let end = TempoSegment {
        t1: t,
        bpm1: bpm_at(segs, t),
        beats1: beats_at(segs, t),
        ..segs[i]
    };
    segs.take(i).push(end)
}

/// The segments after the tempo is set to `bpm` at time `t`.
pub open spec fn with_bpm(segs: Seq<TempoSegment>, bpm: Flt, t: Flt) -> Seq<TempoSegment> {
    let time = t.larger(Flt::zero());
    cut(segs, time).push(steady(time, positive(bpm), beats_at(segs, time)))
}

/// The segments after a ramp to `bpm` over `dur` seconds from time `t`.
pub open spec fn with_ramp(segs: Seq<TempoSegment>, bpm: Flt, dur: Flt, t: Flt) -> Seq<
    TempoSegment,
> {
    let time = t.larger(Flt::zero());
    let d = dur.larger(Flt::zero());
    if d.at_most(Flt::zero()) {
        with_bpm(segs, positive(bpm), time)
    } else {
        let start = bpm_at(segs, time);
        let beats0 = beats_at(segs, time);
        let k = positive(bpm).minus(start).over(d);
        let t1 = time.plus(d);
        let beats1 = beats0.plus(area(start, k, d));
        let ramp = TempoSegment {
            t0: time,
            t1,
            bpm0: start,
            bpm1: positive(bpm),
            beats0,
            beats1,
        };
        cut(segs, time).push(ramp).push(steady(t1, positive(bpm), beats1))
    }
}

/// The segments start at 0 and follow one another.
pub open spec fn in_order(segs: Seq<TempoSegment>) -> bool {
    &&& segs.len() > 0
    &&& segs[0].t0 == Flt::zero()
    &&& forall|i: int| 0 <= i < segs.len() ==> !(#[trigger] segs[i]).t0.nan()
    &&& forall|i: int, j: int|
        0 <= i <= j < segs.len() ==> (#[trigger] segs[i]).t0.val() <= (#[trigger] segs[j]).t0.val()
}

/// What a tempo map is.
#[verifier::ext_equal]
pub struct TempoView {
    /// Its identity.
    pub id: u64,
    /// How often it was changed.
    pub version: u64,
    /// Its segments.
    pub segs: Seq<TempoSegment>,
}

/// The tempo over time.
#[derive(Debug)]
pub struct TempoMap {
    /// Its identity.
    pub id: u64,
    /// How often it was changed.
    pub version: u64,
    segs: Vec<TempoSegment>,
}

impl View for TempoMap {
    type V = TempoView;

    closed spec fn view(&self) -> TempoView {
        TempoView { id: self.id, version: self.version, segs: self.segs@ }
    }
}

impl Clone for TempoMap {
    fn clone(&self) -> (r: Self)
        ensures
            r@ == self@,
            r.wf() == self.wf(),
    {
        let segs: Vec<TempoSegment> = self.segs.clone();
        assert(segs@ =~= self.segs@);
        TempoMap { id: self.id, version: self.version, segs }
    }
}

/// The last started segment has started, and those after it have not.
pub proof fn lemma_last_started(segs: Seq<TempoSegment>, t: Flt, n: int)
    requires
        1 <= n <= segs.len(),
    ensures
        0 <= last_started(segs, t, n) < n,
        last_started(segs, t, n) > 0 ==> segs[last_started(segs, t, n)].t0.at_most(t),
        forall|i: int| last_started(segs, t, n) < i < n ==> !(#[trigger] segs[i]).t0.at_most(t),
    decreases n,
{
    if n > 1 && !segs[n - 1].t0.at_most(t) {
        lemma_last_started(segs, t, n - 1);
    }
}

proof fn lemma_last_started_is(segs: Seq<TempoSegment>, t: Flt, i: int, n: int)
    requires
        0 <= i < n <= segs.len(),
        i > 0 ==> segs[i].t0.at_most(t),
        forall|j: int| i < j < n ==> !(#[trigger] segs[j]).t0.at_most(t),
    ensures
        last_started(segs, t, n) == i,
{
    lemma_last_started(segs, t, n);
}

/// The segment of a time is one of the segments.
pub proof fn lemma_segment_index(segs: Seq<TempoSegment>, t: Flt)
    requires
        segs.len() > 0,
    ensures
        0 <= segment_index(segs, t) < segs.len(),
        segment_index(segs, t) > 0 ==> segs[segment_index(segs, t)].t0.at_most(t),
{
    lemma_last_started(segs, t, segs.len() as int);
}

/// Cutting keeps the order.
proof fn lemma_cut(segs: Seq<TempoSegment>, t: Flt)
    requires
        in_order(segs),
        Flt::zero().at_most(t),
    ensures
        in_order(cut(segs, t)),
        cut(segs, t).last().t0.at_most(t),
{
    lemma_segment_index(segs, t);
}

proof fn lemma_push(segs: Seq<TempoSegment>, s: TempoSegment)
    requires
        in_order(segs),
        segs.last().t0.at_most(s.t0),
    ensures
        in_order(segs.push(s)),
{
}

impl TempoMap {
    /// The segments follow one another from time 0 on.
    pub closed spec fn wf(&self) -> bool {
        in_order(self@.segs)
    }

    /// A map with one tempo throughout.
    pub fn new(initial_bpm: Flt, id: u64) -> (r: Self)
        ensures
            r.wf(),
            r@ == (TempoView {
                id,
                version: 0,
                segs: seq![steady(Flt::zero(), positive(initial_bpm), Flt::zero())],
            }),
    {
        let bpm: Flt = clamp_pos(initial_bpm);
        let mut segs: Vec<TempoSegment> = Vec::new();
        segs.push(
            TempoSegment {
                t0: Flt::zero(),
                t1: Flt::infinity(),
                bpm0: bpm,
                bpm1: bpm,
                beats0: Flt::zero(),
                beats1: Flt::infinity(),
            },
        );
        TempoMap { id, version: 0, segs }
    }

    /// It can be changed once more.
    pub fn can_change(&self) -> (r: bool)
        ensures
            r == (self@.version < u64::MAX),
    {
        self.version < u64::MAX
    }

    /// The same map under another identity.
    pub fn clone_with_new_id(&self, id: u64) -> (r: Self)
        requires
            self.wf(),
        ensures
            r.wf(),
            r@ == (TempoView { id, ..self@ }),
    {
        let mut cloned: TempoMap = self.clone();
        cloned.id = id;
        cloned
    }

    /// The tempo at `t`.
    pub fn bpm_at_time(&self, t: Flt) -> (r: Flt)
        requires
            self.wf(),
        ensures
            r == bpm_at(self@.segs, t),
    {
        let i: usize = self.segment_at_time(t);
        let s: TempoSegment = self.segs[i];
        if !s.t1.is_finite() || (s.t1.le(s.t0) && s.t0.le(s.t1)) {
            return s.bpm0;
        }
        let a: Flt = t.difference(s.t0).quotient(s.t1.difference(s.t0));
        s.bpm0.sum(s.bpm1.difference(s.bpm0).product(a))
    }

    /// The beats that have passed at `t`.
    pub fn beats_at_time(&self, t: Flt) -> (r: Flt)
        requires
            self.wf(),
        ensures
            r == beats_at(self@.segs, t),
    {
        let i: usize = self.segment_at_time(t);
        let s: TempoSegment = self.segs[i];
        let dt: Flt = t.difference(s.t0).max(Flt::zero());
        s.beats0.sum(area_of(s.bpm0, s.rate(), dt))
    }

    /// When `target_beats` have passed; infinity where that number is not
    /// finite.
    pub fn time_at_beats(&self, target_beats: Flt) -> (r: Flt)
        requires
            self.wf(),
        ensures
            r == time_at(self@.segs, target_beats),
    {
        if !target_beats.is_finite() {
            return Flt::infinity();
        }
        if target_beats.le(Flt::zero()) {
            return Flt::zero();
        }
        let mut lo: usize = 0;
        let mut hi: usize = self.segs.len() - 1;
        while lo < hi
            invariant
                lo <= hi < self.segs.len(),
                beat_segment(self.segs@, target_beats, lo as int, hi as int) == beat_segment(
                    self.segs@,
                    target_beats,
                    0,
                    self.segs.len() - 1,
                ),
            decreases hi - lo,
        {
            let mid: usize = lo + (hi - lo) / 2;
            if target_beats.le(self.segs[mid].beats1) {
                hi = mid;
            } else {
                lo = mid + 1;
            }
        }
        let s: TempoSegment = self.segs[lo];
        let delta: Flt = target_beats.difference(s.beats0);
        if delta.le(Flt::zero()) {
            return s.t0;
        }
        let k: Flt = s.rate();
        let c: Flt = delta.product(Flt::sixty());
        if k.abs().lt(Flt::tiny()) {
            return s.t0.sum(c.quotient(clamp_pos(s.bpm0)));
        }
        let disc: Flt = s.bpm0.product(s.bpm0).sum(Flt::two().product(k).product(c));
        let root: Flt = disc.max(Flt::zero()).sqrt();
        let dt: Flt = s.bpm0.negate().sum(root).quotient(k);
        s.t0.sum(dt.max(Flt::zero()))
    }

    /// Sets the tempo from `t` on; what was planned after `t` is dropped.
    pub fn set_bpm_at_time(&mut self, bpm: Flt, t: Flt)
        requires
            old(self).wf(),
            old(self)@.version < u64::MAX,
        ensures
            final(self).wf(),
            final(self)@ == (TempoView {
                id: old(self)@.id,
                version: (old(self)@.version + 1) as u64,
                segs: with_bpm(old(self)@.segs, bpm, t),
            }),
    {
        let new_bpm: Flt = clamp_pos(bpm);
        let time: Flt = t.max(Flt::zero());
        let (_, beats_at_t) = self.cut_at(time);
        proof {
            lemma_push(self@.segs, steady(time, new_bpm, beats_at_t));
        }
        self.segs.push(
            TempoSegment {
                t0: time,
                t1: Flt::infinity(),
                bpm0: new_bpm,
                bpm1: new_bpm,
                beats0: beats_at_t,
                beats1: Flt::infinity(),
            },
        );
        self.version = self.version + 1;
    }

    /// Moves the tempo to a target over `dur_sec` seconds from `t` on, and
    /// stays there.
    pub fn ramp_to_bpm_at_time(&mut self, target_bpm: Flt, dur_sec: Flt, t: Flt)
        requires
            old(self).wf(),
            old(self)@.version < u64::MAX,
        ensures
            final(self).wf(),
            final(self)@ == (TempoView {
                id: old(self)@.id,
                version: (old(self)@.version + 1) as u64,
                segs: with_ramp(old(self)@.segs, target_bpm, dur_sec, t),
            }),
    {
        let end_bpm: Flt = clamp_pos(target_bpm);
        let time: Flt = t.max(Flt::zero());
        let dur: Flt = dur_sec.max(Flt::zero());
        if dur.le(Flt::zero()) {
            self.set_bpm_at_time(end_bpm, time);
            return ;
        }
        let (bpm_at_t, beats_at_t) = self.cut_at(time);
        let t1: Flt = time.sum(dur);
        let k: Flt = end_bpm.difference(bpm_at_t).quotient(dur);
        let beats1: Flt = beats_at_t.sum(area_of(bpm_at_t, k, dur));
        let ramp: TempoSegment = TempoSegment {
            t0: time,
            t1,
            bpm0: bpm_at_t,
            bpm1: end_bpm,
            beats0: beats_at_t,
            beats1,
        };
        proof {
            lemma_push(self@.segs, ramp);
            order::lemma_zero();
            order::sum_never_shrinks(time, dur);
            lemma_push(self@.segs.push(ramp), steady(t1, end_bpm, beats1));
        }
        self.segs.push(ramp);
        self.segs.push(
            TempoSegment {
                t0: t1,
                t1: Flt::infinity(),
                bpm0: end_bpm,
                bpm1: end_bpm,
                beats0: beats1,
                beats1: Flt::infinity(),
            },
        );
        self.version = self.version + 1;
    }

    /// Where the segment that `t` lies in stands.
    fn segment_at_time(&self, t: Flt) -> (r: usize)
        requires
            self.wf(),
        ensures
            r == segment_index(self@.segs, t),
            r < self@.segs.len(),
    {
        let mut lo: usize = 0;
        let mut hi: usize = self.segs.len() - 1;
        while lo < hi
            invariant
                in_order(self.segs@),
                lo <= hi < self.segs.len(),
                lo > 0 ==> self.segs@[lo as int].t0.at_most(t),
                forall|j: int|
                    hi < j < self.segs.len() ==> !(#[trigger] self.segs@[j]).t0.at_most(t),
            decreases hi - lo,
        {
            let mid: usize = lo + (hi - lo + 1) / 2;
            if self.segs[mid].t0.le(t) {
                lo = mid;
            } else {
                hi = mid - 1;
            }
        }
        proof {
            lemma_last_started_is(self.segs@, t, lo as int, self.segs@.len() as int);
        }
        lo
    }

    /// The tempo and the beats at `t`, and the segment that it lies in.
    fn split_at(&self, t: Flt) -> (r: (Flt, Flt, usize))
        requires
            self.wf(),
        ensures
            r.0 == bpm_at(self@.segs, t.larger(Flt::zero())),
            r.1 == beats_at(self@.segs, t.larger(Flt::zero())),
            r.2 == segment_index(self@.segs, t.larger(Flt::zero())),
            r.2 < self@.segs.len(),
    {
        let time: Flt = t.max(Flt::zero());
        let i: usize = self.segment_at_time(time);
        let beats_at_t: Flt = self.beats_at_time(time);
        let bpm_at_t: Flt = self.bpm_at_time(time);
        (bpm_at_t, beats_at_t, i)
    }

    /// Drops what comes after `time`, and hands out the tempo and the beats
    /// there.
    fn cut_at(&mut self, time: Flt) -> (r: (Flt, Flt))
        requires
            old(self).wf(),
            Flt::zero().at_most(time),
        ensures
            final(self).wf(),
            final(self)@ == (TempoView { segs: cut(old(self)@.segs, time), ..old(self)@ }),
            final(self)@.segs.last().t0.at_most(time),
            r.0 == bpm_at(old(self)@.segs, time),
            r.1 == beats_at(old(self)@.segs, time),
    {
        let (bpm_at_t, beats_at_t, i) = self.split_at(time);
        let mut s: TempoSegment = self.segs[i];
        s.t1 = time;
        s.bpm1 = bpm_at_t;
        s.beats1 = beats_at_t;
        self.segs.truncate(i);
        self.segs.push(s);
        proof {
            lemma_cut(old(self)@.segs, time);
            assert(self@.segs =~= cut(old(self)@.segs, time));
        }
        (bpm_at_t, beats_at_t)
    }
}

/// All tempo maps, each under its identity.
pub struct Tempos {
    maps: HashMap<u64, TempoMap>,
    next: u64,
}

/// What the tempo maps are.
#[verifier::ext_equal]
pub struct TemposView {
    /// The maps.
    pub maps: Map<u64, TempoView>,
    /// The identity of the next map.
    pub next: u64,
}

impl View for Tempos {
    type V = TemposView;

    closed spec fn view(&self) -> TemposView {
        TemposView { maps: self.maps@.map_values(|m: TempoMap| m@), next: self.next }
    }
}

impl TemposView {
    /// After a new map with one tempo throughout was added.
    pub open spec fn created(self, bpm: Flt) -> TemposView {
        let map = TempoView {
            id: self.next,
            version: 0,
            segs: seq![steady(Flt::zero(), positive(bpm), Flt::zero())],
        };
        TemposView { maps: self.maps.insert(self.next, map), next: (self.next + 1) as u64 }
    }

    /// After a copy of a map was added.
    pub open spec fn copied(self, id: u64) -> TemposView {
        TemposView {
            maps: self.maps.insert(self.next, TempoView { id: self.next, ..self.maps[id] }),
            next: (self.next + 1) as u64,
        }
    }

    /// After the segments of a map were replaced.
    pub open spec fn changed(self, id: u64, segs: Seq<TempoSegment>) -> TemposView {
        let map = TempoView {
            version: (self.maps[id].version + 1) as u64,
            segs,
            ..self.maps[id]
        };
        TemposView { maps: self.maps.insert(id, map), ..self }
    }
}

impl Tempos {
    /// Every map is well-formed and stands under its own identity, which is
    /// below the next one.
    pub closed spec fn wf(&self) -> bool {
        forall|id: u64| #[trigger]
            self.maps@.contains_key(id) ==> self.maps@[id].wf() && self.maps@[id].id == id && id
                < self.next
    }

    /// The identities of maps have not run out.
    pub fn has_room(&self) -> (r: bool)
        ensures
            r == (self@.next < u64::MAX),
    {
        self.next < u64::MAX
    }

    /// No maps.
    pub fn new() -> (r: Self)
        ensures
            r.wf(),
            r@ == (TemposView { maps: Map::empty(), next: 0 }),
    {
        let r: Tempos = Tempos { maps: HashMap::new(), next: 0 };
        assert(r@.maps =~= Map::empty());
        r
    }

    /// The map of that identity.
    pub fn get(&self, id: u64) -> (r: &TempoMap)
        requires
            self.wf(),
            self@.maps.contains_key(id),
        ensures
            r.wf(),
            r@ == self@.maps[id],
            r@.id == id,
    {
        match self.maps.get(&id) {
            Some(m) => m,
            None => {
                assert(self.maps@.contains_key(id));
                vstd::pervasive::unreached()
            },
        }
    }

    /// Takes a map out to change it.
    fn take(&mut self, id: u64) -> (r: TempoMap)
        requires
            old(self).wf(),
            old(self)@.maps.contains_key(id),
        ensures
            final(self).wf(),
            final(self)@.maps == old(self)@.maps.remove(id),
            final(self)@.next == old(self)@.next,
            r.wf(),
            r@ == old(self)@.maps[id],
            r@.id == id,
            id < old(self)@.next,
    {
        assert(self.maps@.contains_key(id));
        match self.maps.remove(&id) {
            Some(m) => {
                assert(self@.maps =~= old(self)@.maps.remove(id));
                m
            },
            None => vstd::pervasive::unreached(),
        }
    }

    /// Puts a map under its identity.
    fn put(&mut self, m: TempoMap)
        requires
            old(self).wf(),
            m.wf(),
            m@.id < old(self)@.next,
        ensures
            final(self).wf(),
            final(self)@ == (TemposView {
                maps: old(self)@.maps.insert(m@.id, m@),
                ..old(self)@
            }),
    {
        self.maps.insert(m.id, m);
        assert(self@.maps =~= old(self)@.maps.insert(m@.id, m@));
    }

    /// Adds a map with one tempo throughout, and hands out its identity.
    pub fn create(&mut self, bpm: Flt) -> (r: u64)
        requires
            old(self).wf(),
            old(self)@.next < u64::MAX,
        ensures
            final(self).wf(),
            final(self)@ == old(self)@.created(bpm),
            r == old(self)@.next,
    {
        let id: u64 = self.next;
        self.next = id + 1;
        assert(self@.maps =~= old(self)@.maps);
        self.put(TempoMap::new(bpm, id));
        id
    }

    /// Adds a copy of a map, and hands out its identity.
    pub fn copy_of(&mut self, id: u64) -> (r: u64)
        requires
            old(self).wf(),
            old(self)@.next < u64::MAX,
            old(self)@.maps.contains_key(id),
        ensures
            final(self).wf(),
            final(self)@ == old(self)@.copied(id),
            r == old(self)@.next,
    {
        let copy: u64 = self.next;
        let m: TempoMap = self.get(id).clone_with_new_id(copy);
        self.next = copy + 1;
        assert(self@.maps =~= old(self)@.maps);
        self.put(m);
        copy
    }

    /// Sets the tempo of a map from `t` on.
    pub fn set_bpm(&mut self, id: u64, bpm: Flt, t: Flt)
        requires
            old(self).wf(),
            old(self)@.maps.contains_key(id),
            old(self)@.maps[id].version < u64::MAX,
        ensures
            final(self).wf(),
            final(self)@ == old(self)@.changed(id, with_bpm(old(self)@.maps[id].segs, bpm, t)),
    {
        let mut m: TempoMap = self.take(id);
        m.set_bpm_at_time(bpm, t);
        self.put(m);
        assert(self@.maps =~= old(self)@.maps.insert(id, m@));
    }

    /// Moves the tempo of a map to a target over `dur` seconds from `t` on.
    pub fn ramp(&mut self, id: u64, bpm: Flt, dur: Flt, t: Flt)
        requires
            old(self).wf(),
            old(self)@.maps.contains_key(id),
            old(self)@.maps[id].version < u64::MAX,
        ensures
            final(self).wf(),
            final(self)@ == old(self)@.changed(
                id,
                with_ramp(old(self)@.maps[id].segs, bpm, dur, t),
            ),
    {
        let mut m: TempoMap = self.take(id);
        m.ramp_to_bpm_at_time(bpm, dur, t);
        self.put(m);
        assert(self@.maps =~= old(self)@.maps.insert(id, m@));
    }
}

/// After the tempo is set, it holds at that time and at every later one.
pub proof fn set_tempo_holds(segs: Seq<TempoSegment>, bpm: Flt, t: Flt, u: Flt)
    requires
        in_order(segs),
        t.larger(Flt::zero()).at_most(u),
    ensures
        bpm_at(with_bpm(segs, bpm, t), u) == positive(bpm),
        bpm_at(with_bpm(segs, bpm, t), t.larger(Flt::zero())) == positive(bpm),
{
    let time = t.larger(Flt::zero());
    let after = with_bpm(segs, bpm, t);
    order::lemma_zero();
    lemma_cut(segs, time);
    lemma_last_started_is(after, u, after.len() - 1, after.len() as int);
    lemma_last_started_is(after, time, after.len() - 1, after.len() as int);
}

/// A tempo that is not positive and finite counts as 1.
pub proof fn impossible_tempo_counts_as_one(segs: Seq<TempoSegment>, bpm: Flt, t: Flt, u: Flt)
    requires
        in_order(segs),
        t.larger(Flt::zero()).at_most(u),
        !bpm.finite() || bpm.at_most(Flt::zero()),
    ensures
        bpm_at(with_bpm(segs, bpm, t), u) == Flt::one(),
{
    set_tempo_holds(segs, bpm, t, u);
    order::lemma_zero();
}

/// After a ramp, its target tempo holds at every time past its end.
pub proof fn ramp_reaches_target(segs: Seq<TempoSegment>, bpm: Flt, dur: Flt, t: Flt, u: Flt)
    requires
        in_order(segs),
        Flt::zero().less(dur),
        t.larger(Flt::zero()).plus(dur).at_most(u),
    ensures
        bpm_at(with_ramp(segs, bpm, dur, t), u) == positive(bpm),
{
    let time = t.larger(Flt::zero());
    let after = with_ramp(segs, bpm, dur, t);
    lemma_cut(segs, time);
    order::lemma_zero();
    order::sum_never_shrinks(time, dur);
    lemma_last_started_is(after, u, after.len() - 1, after.len() as int);
}

/// Two maps agree on a time that lies in a segment that they share, where
/// the next segment of each has not started yet.
proof fn lemma_same_segment(a: Seq<TempoSegment>, b: Seq<TempoSegment>, u: Flt, i: int)
    requires
        in_order(a),
        in_order(b),
        !u.nan(),
        segment_index(a, u) == i,
        i + 1 < b.len(),
        forall|j: int| 0 <= j <= i ==> (#[trigger] a[j]).t0 == b[j].t0,
        !b[i + 1].t0.at_most(u),
    ensures
        segment_index(b, u) == i,
{
    lemma_segment_index(a, u);
    order::lemma_zero();
    assert(b[i].t0 == a[i].t0);
    assert forall|j: int| i < j < b.len() implies !(#[trigger] b[j]).t0.at_most(u) by {
        assert(b[i + 1].t0.val() <= b[j].t0.val());
    }
    lemma_last_started_is(b, u, i, b.len() as int);
}

/// Setting the tempo changes nothing in the segments before the one that is
/// cut: neither the tempo nor the beats.
pub proof fn set_tempo_keeps_earlier_segments(
    segs: Seq<TempoSegment>,
    bpm: Flt,
    t: Flt,
    u: Flt,
)
    requires
        in_order(segs),
        segment_index(segs, u) < segment_index(segs, t.larger(Flt::zero())),
    ensures
        bpm_at(with_bpm(segs, bpm, t), u) == bpm_at(segs, u),
        beats_at(with_bpm(segs, bpm, t), u) == beats_at(segs, u),
{
    let time = t.larger(Flt::zero());
    let after = with_bpm(segs, bpm, t);
    let i = segment_index(segs, u);
    lemma_cut(segs, time);
    lemma_segment_index(segs, u);
    lemma_segment_index(segs, time);
    assert(after[i] == segs[i]);
    if u.nan() {
        lemma_last_started_is(after, u, 0, after.len() as int);
        lemma_last_started_is(segs, u, 0, segs.len() as int);
    } else {
        lemma_last_started(segs, u, segs.len() as int);
        lemma_push(cut(segs, time), steady(time, positive(bpm), beats_at(segs, time)));
        assert(!segs[i + 1].t0.at_most(u));
        assert(after[i + 1].t0 == segs[i + 1].t0);
        lemma_same_segment(segs, after, u, i);
    }
}

/// A ramp changes nothing in the segments before the one that is cut either.
pub proof fn ramp_keeps_earlier_segments(
    segs: Seq<TempoSegment>,
    bpm: Flt,
    dur: Flt,
    t: Flt,
    u: Flt,
)
    requires
        in_order(segs),
        segment_index(segs, u) < segment_index(segs, t.larger(Flt::zero())),
        !u.nan(),
        !t.larger(Flt::zero()).plus(dur).nan(),
    ensures
        bpm_at(with_ramp(segs, bpm, dur, t), u) == bpm_at(segs, u),
        beats_at(with_ramp(segs, bpm, dur, t), u) == beats_at(segs, u),
{
    let time = t.larger(Flt::zero());
    let d = dur.larger(Flt::zero());
    let i = segment_index(segs, u);
    order::lemma_zero();
    if d.at_most(Flt::zero()) {
        assert(time.larger(Flt::zero()) == time);
        set_tempo_keeps_earlier_segments(segs, positive(bpm), time, u);
    } else {
        let after = with_ramp(segs, bpm, dur, t);
        let c = cut(segs, time);
        lemma_cut(segs, time);
        lemma_segment_index(segs, u);
        lemma_segment_index(segs, time);
        lemma_last_started(segs, u, segs.len() as int);
        assert(after[i] == segs[i]);
        assert(!segs[i + 1].t0.at_most(u));
        assert(after[i + 1].t0 == segs[i + 1].t0);
        order::sum_never_shrinks(time, d);
        lemma_push(c, after[after.len() - 2]);
        lemma_push(c.push(after[after.len() - 2]), after[after.len() - 1]);
        lemma_same_segment(segs, after, u, i);
    }
}

/// Setting the tempo while it is steady does not change the beats at any
/// earlier time of that stretch.
pub proof fn set_tempo_keeps_steady_past(segs: Seq<TempoSegment>, bpm: Flt, t: Flt, u: Flt)
    requires
        in_order(segs),
        segment_index(segs, u) == segment_index(segs, t),
        Flt::zero().less(u),
        u.less(t),
        segs[segment_index(segs, u)].bpm0.finite(),
        segs[segment_index(segs, u)].bpm1 == segs[segment_index(segs, u)].bpm0,
        segs[segment_index(segs, u)].t1 == Flt::infinity(),
    ensures
        beats_at(with_bpm(segs, bpm, t), u) == beats_at(segs, u),
{
    let after = with_bpm(segs, bpm, t);
    let i = segment_index(segs, u);
    let s = segs[i];
    order::lemma_zero();
    assert(t.larger(Flt::zero()) == t);
    lemma_cut(segs, t);
    lemma_segment_index(segs, u);
    lemma_push(cut(segs, t), steady(t, positive(bpm), beats_at(segs, t)));
    assert(after[i].t0 == s.t0 && after[i].bpm0 == s.bpm0 && after[i].beats0 == s.beats0);
    assert(after[i + 1].t0 == t);
    lemma_same_segment(segs, after, u, i);
    assert(after[i].bpm1 == s.bpm0);
    order::lemma_minus_self(s.bpm0);
    let l = t.minus(s.t0);
    if l.finite() && Flt::zero().less(l) {
        order::lemma_zero_over(l);
    }
    let open_end = s.t1.minus(s.t0);
    assert(after[i].slope() == Flt::zero());
    if open_end.finite() && Flt::zero().less(open_end) {
        order::lemma_zero_over(open_end);
    }
    assert(s.slope() == Flt::zero());
}

/// The time since the start of a segment is finite, and grows with time.
proof fn lemma_elapsed(t0: Flt, t: Flt, u: Flt)
    requires
        t0.finite(),
        Flt::zero().at_most(t0),
        t.finite(),
        u.finite(),
        t.at_most(u),
    ensures
        t.minus(t0).larger(Flt::zero()).finite(),
        Flt::zero().at_most(t.minus(t0).larger(Flt::zero())),
        t.minus(t0).larger(Flt::zero()).at_most(u.minus(t0).larger(Flt::zero())),
{
    order::lemma_zero();
    order::lemma_negated(t0);
    order::difference_never_grows(t, t0);
    order::difference_never_grows(u, t0);
    order::lemma_plus_commutes(t, t0.negated());
    order::lemma_plus_commutes(u, t0.negated());
    order::sum_is_monotone(t0.negated(), t, u);
    let a = t.minus(t0);
    if !a.less(Flt::zero()) {
        order::lemma_finite_below(a, t);
    }
}

/// At a steady tempo the beats never run backwards.
pub proof fn steady_beats_never_run_back(s: TempoSegment, t: Flt, u: Flt)
    requires
        s.t1 == Flt::infinity(),
        s.t0.finite(),
        Flt::zero().at_most(s.t0),
        s.bpm0.finite(),
        Flt::zero().less(s.bpm0),
        s.beats0.finite(),
        t.finite(),
        u.finite(),
        t.at_most(u),
    ensures
        s.beats_at(t).at_most(s.beats_at(u)),
{
    let x = t.minus(s.t0).larger(Flt::zero());
    let y = u.minus(s.t0).larger(Flt::zero());
    lemma_elapsed(s.t0, t, u);
    lemma_elapsed(s.t0, u, u);
    assert(s.slope() == Flt::zero()) by {
        assert(!s.t1.minus(s.t0).finite());
    }
    order::lemma_no_slope(x);
    order::lemma_no_slope(y);
    order::product_is_monotone(s.bpm0, x, y);
    order::lemma_plus_zero(s.bpm0.times(x));
    order::lemma_plus_zero(s.bpm0.times(y));
    order::lemma_sixty();
    let a = s.bpm0.times(x).plus(Flt::zero());
    let b = s.bpm0.times(y).plus(Flt::zero());
    order::lemma_zero();
    order::quotient_is_monotone(a, b, Flt::sixty());
    order::sum_grows(s.beats0, a.over(Flt::sixty()), b.over(Flt::sixty()));
}

/// At one steady tempo, beats and time are inverse to one another, up to
/// rounding: the beats at the time of a beat are that beat, to within 2^-50 of
/// it.
pub proof fn beats_come_back(bpm: Flt, beats: Flt)
    requires
        error::moderate(bpm),
        error::moderate(beats),
    ensures
        ({
            let segs = seq![steady(Flt::zero(), bpm, Flt::zero())];
            let back = beats_at(segs, time_at(segs, beats));
            &&& back.finite()
            &&& (back.val() - beats.val()) * pow2(50) <= beats.val()
            &&& (beats.val() - back.val()) * pow2(50) <= beats.val()
        }),
{
    let segs = seq![steady(Flt::zero(), bpm, Flt::zero())];
    let s = segs[0];
    let sixty = Flt::sixty();
    let p = pow2(1074) as int;
    error::lemma_moderate(bpm);
    error::lemma_moderate(beats);
    error::lemma_sixty_range();
    order::lemma_zero();
    order::lemma_sixty();
    lemma_steady_parts(s);
    let c = beats.times(sixty);
    error::lemma_product_close(beats, sixty, 674, 1474, 1079, 1080);
    error::lemma_product_range(beats.val(), sixty.val(), 674, 1474, 1079, 1080);
    error::lemma_close_range(beats.val() * sixty.val(), c.val() * p, 1752, 2554);
    error::lemma_factor_range(c.val(), p, 678, 1481, 1074, 1074);
    let t = c.over(bpm);
    error::lemma_quotient_close(c, bpm, 678, 1481, 674, 1474);
    error::lemma_product_range(c.val(), p, 678, 1481, 1074, 1074);
    error::lemma_close_range(c.val() * p, t.val() * bpm.val(), 1751, 2555);
    error::lemma_factor_range(t.val(), bpm.val(), 277, 1882, 674, 1474);
    order::lemma_nothing_added(beats);
    order::lemma_nothing_added(t);
    assert(time_at(segs, beats) == t);
    let a = bpm.times(t);
    lemma_mul_is_commutative(t.val(), bpm.val());
    error::lemma_product_close_by(bpm, t, 1751, 2556);
    error::lemma_close_range(bpm.val() * t.val(), a.val() * p, 1750, 2556);
    error::lemma_factor_range(a.val(), p, 676, 1483, 1074, 1074);
    order::lemma_no_slope(t);
    order::lemma_nothing_added(a);
    let r = a.over(sixty);
    error::lemma_quotient_close(a, sixty, 676, 1483, 1079, 1080);
    order::lemma_nothing_added(r);
    assert(beats_at(segs, t) == r);
    error::lemma_within_adds(
        beats.val() * sixty.val(),
        c.val() * p,
        t.val() * bpm.val(),
        1,
    );
    error::lemma_within_adds(
        beats.val() * sixty.val(),
        t.val() * bpm.val(),
        a.val() * p,
        3,
    );
    error::lemma_within_adds(
        beats.val() * sixty.val(),
        a.val() * p,
        r.val() * sixty.val(),
        5,
    );
    error::lemma_within_scales(beats.val(), r.val(), sixty.val(), 7);
    error::lemma_within_seven(beats.val(), r.val());
}

/// The other way round: the time of the beats at a time is that time, to
/// within 2^-50 of it.
pub proof fn time_comes_back(bpm: Flt, t: Flt)
    requires
        error::moderate(bpm),
        error::moderate(t),
    ensures
        ({
            let segs = seq![steady(Flt::zero(), bpm, Flt::zero())];
            let back = time_at(segs, beats_at(segs, t));
            &&& back.finite()
            &&& (back.val() - t.val()) * pow2(50) <= t.val()
            &&& (t.val() - back.val()) * pow2(50) <= t.val()
        }),
{
    let segs = seq![steady(Flt::zero(), bpm, Flt::zero())];
    let s = segs[0];
    let sixty = Flt::sixty();
    let p = pow2(1074) as int;
    error::lemma_moderate(bpm);
    error::lemma_moderate(t);
    error::lemma_sixty_range();
    order::lemma_zero();
    order::lemma_sixty();
    lemma_steady_parts(s);
    let x = bpm.val() * t.val();
    let a = bpm.times(t);
    error::lemma_product_close(bpm, t, 674, 1474, 674, 1474);
    error::lemma_product_range(bpm.val(), t.val(), 674, 1474, 674, 1474);
    error::lemma_close_range(x, a.val() * p, 1347, 2948);
    error::lemma_factor_range(a.val(), p, 273, 1875, 1074, 1074);
    order::lemma_no_slope(t);
    order::lemma_nothing_added(t);
    order::lemma_nothing_added(a);
    let r = a.over(sixty);
    error::lemma_quotient_close(a, sixty, 273, 1875, 1079, 1080);
    error::lemma_product_range(a.val(), p, 273, 1875, 1074, 1074);
    error::lemma_close_range(a.val() * p, r.val() * sixty.val(), 1346, 2949);
    order::lemma_nothing_added(r);
    assert(beats_at(segs, t) == r);
    let c = r.times(sixty);
    error::lemma_product_close_by(r, sixty, 1346, 2950);
    error::lemma_within_adds(x, a.val() * p, r.val() * sixty.val(), 1);
    error::lemma_within_adds(x, r.val() * sixty.val(), c.val() * p, 3);
    error::lemma_within_five(x, c.val() * p);
    error::lemma_between(bpm.val(), t.val(), c.val() * p);
    let back = c.over(bpm);
    error::lemma_quotient_close_by(c, bpm);
    order::lemma_nothing_added(back);
    assert(time_at(segs, r) == back);
    error::lemma_within_adds(x, c.val() * p, back.val() * bpm.val(), 5);
    lemma_mul_is_commutative(bpm.val(), t.val());
    error::lemma_within_scales(t.val(), back.val(), bpm.val(), 7);
    error::lemma_within_seven(t.val(), back.val());
}

/// No beats, or fewer, have passed at the start; a number of beats that is not
/// finite has never passed.
pub proof fn no_beats_pass_at_the_start(segs: Seq<TempoSegment>, beats: Flt)
    ensures
        beats.finite() && beats.at_most(Flt::zero()) ==> time_at(segs, beats) == Flt::zero(),
        !beats.finite() ==> time_at(segs, beats) == Flt::infinity(),
{
}

/// The only segment of a steady map: its tempo has no slope, and all beats
/// and all times fall into it.
proof fn lemma_steady_parts(s: TempoSegment)
    requires
        s.t1 == Flt::infinity(),
        s.t0 == Flt::zero(),
    ensures
        s.slope() == Flt::zero(),
        crate::flt::signed(false, s.slope().mag()).less(Flt::tiny()),
        forall|b: Flt| beat_segment(seq![s], b, 0, 0) == 0,
        forall|t: Flt| segment_index(seq![s], t) == 0,
{
    order::lemma_zero();
    order::lemma_tiny();
    assert(!s.t1.minus(s.t0).finite());
}

/// Where the beats at the ends of the segments are in order, the segment of
/// a beat is the first that ends at it or later, or else the last.
pub proof fn beat_segment_is_first(segs: Seq<TempoSegment>, beats: Flt, lo: int, hi: int)
    requires
        0 <= lo <= hi < segs.len(),
        !beats.nan(),
        forall|i: int| 0 <= i < segs.len() ==> !(#[trigger] segs[i]).beats1.nan(),
        forall|i: int, j: int|
            0 <= i <= j < segs.len() ==> (#[trigger] segs[i]).beats1.val() <= (
            #[trigger] segs[j]).beats1.val(),
    ensures
        lo <= beat_segment(segs, beats, lo, hi) <= hi,
        forall|i: int|
            lo <= i < beat_segment(segs, beats, lo, hi) ==> (#[trigger] segs[i]).beats1.less(beats),
        beat_segment(segs, beats, lo, hi) < hi ==> beats.at_most(
            segs[beat_segment(segs, beats, lo, hi)].beats1,
        ),
    decreases hi - lo,
{
    if lo < hi {
        let mid = lo + (hi - lo) / 2;
        if beats.at_most(segs[mid].beats1) {
            beat_segment_is_first(segs, beats, lo, mid);
        } else {
            beat_segment_is_first(segs, beats, mid + 1, hi);
        }
    }
}

} // verus!

//! What waits, and what comes due next.
//!
//! Waits are for a time, for a beat of a tempo, or for the next frame. Waits
//! for a beat stand in a queue for each tempo; the time at which the first of
//! each is due stands in one more queue, and moves when the tempo changes.
use std::collections::HashMap;
use vstd::prelude::*;

use crate::flt::Flt;
use crate::pq;
use crate::pq::MinPq;
use crate::tempo;
use crate::tempo::{clamp_pos, TempoView, Tempos};

verus! {

broadcast use vstd::std_specs::hash::group_hash_axioms;

/// Where logical time comes from.
#[derive(Clone, Copy, Debug, PartialEq, Eq, Structural)]
pub enum SchedulerMode {
    /// From the wall clock.
    Realtime,
    /// From the steps that the host takes.
    Offline,
}

/// A handle on how a wait stands. Its copies speak of the same wait.
#[derive(Clone, Copy, Debug, PartialEq, Eq, Structural)]
pub struct WaitState {
    /// The number of the wait.
    pub id: u64,
}

/// How a wait stands.
#[derive(Debug, PartialEq, Eq, Structural)]
pub struct WaitStateInner {
    /// It came due.
    pub done: bool,
    /// It was cancelled.
    pub cancelled: bool,
    /// The task to wake when either happens.
    pub waker: Option<u64>,
}

impl WaitStateInner {
    /// Still waiting, with nobody to wake.
    pub open spec fn fresh() -> WaitStateInner {
        WaitStateInner { done: false, cancelled: false, waker: None }
    }

    /// Done or cancelled.
    pub open spec fn settled(self) -> bool {
        self.done || self.cancelled
    }

    /// After it came due; what is settled stays as it is.
    pub open spec fn after_ok(self) -> WaitStateInner {
        if self.settled() {
            self
        } else {
            WaitStateInner { done: true, cancelled: false, waker: None }
        }
    }

    /// After it was cancelled; what is settled stays as it is.
    pub open spec fn after_cancel(self) -> WaitStateInner {
        if self.settled() {
            self
        } else {
            WaitStateInner { done: false, cancelled: true, waker: None }
        }
    }

    /// The task to wake when it is settled now.
    pub open spec fn wakes(self) -> Option<u64> {
        if self.settled() {
            None
        } else {
            self.waker
        }
    }

    /// Still waiting, with nobody to wake.
    pub fn new() -> (r: Self)
        ensures
            r == WaitStateInner::fresh(),
    {
        WaitStateInner { done: false, cancelled: false, waker: None }
    }

    /// Sets the task to wake.
    pub fn set_waker(&mut self, w: u64)
        ensures
            *final(self) == (WaitStateInner { waker: Some(w), ..*old(self) }),
    {
        self.waker = Some(w);
    }

    /// Notes that it came due, and hands out the task to wake.
    pub fn complete_ok(&mut self) -> (r: Option<u64>)
        ensures
            *final(self) == old(self).after_ok(),
            r == old(self).wakes(),
    {
        if self.done || self.cancelled {
            return None;
        }
        self.done = true;
        self.waker.take()
    }

    /// Notes that it was cancelled, and hands out the task to wake.
    pub fn complete_cancelled(&mut self) -> (r: Option<u64>)
        ensures
            *final(self) == old(self).after_cancel(),
            r == old(self).wakes(),
    {
        if self.done || self.cancelled {
            return None;
        }
        self.cancelled = true;
        self.waker.take()
    }

    /// It came due.
    pub fn is_done(&self) -> (r: bool)
        ensures
            r == self.done,
    {
        self.done
    }

    /// It was cancelled.
    pub fn is_cancelled(&self) -> (r: bool)
        ensures
            r == self.cancelled,
    {
        self.cancelled
    }

    /// Done or cancelled.
    pub fn is_complete(&self) -> (r: bool)
        ensures
            r == self.settled(),
    {
        self.done || self.cancelled
    }
}

impl Default for WaitStateInner {
    fn default() -> (r: Self)
        ensures
            r == WaitStateInner::fresh(),
    {
        Self::new()
    }
}

/// A wait for a time.
#[derive(Clone, Copy, Debug, PartialEq, Eq, Structural)]
pub struct TimeWaitMeta {
    /// Orders waits that are due together.
    pub seq: u64,
    /// When it is due.
    pub target_time: Flt,
    /// The waiter.
    pub waiter_id: u64,
}

/// A wait for a beat.
#[derive(Clone, Copy, Debug, PartialEq, Eq, Structural)]
pub struct BeatWaitMeta {
    /// Orders waits that are due together.
    pub seq: u64,
    /// At which beat it is due.
    pub target_beat: Flt,
    /// The waiter.
    pub waiter_id: u64,
    /// The tempo that counts the beats.
    pub tempo_id: u64,
}

/// The first of the waits for a beat of one tempo.
#[derive(Clone, Copy, Debug, PartialEq, Eq, Structural)]
pub struct TempoHeadMeta {
    /// The tempo.
    pub tempo_id: u64,
}

/// A wait for the next frame.
#[derive(Clone, Copy, Debug, PartialEq, Eq, Structural)]
pub struct FrameWaitMeta {
    /// Orders the waits.
    pub seq: u64,
    /// The waiter.
    pub waiter_id: u64,
}

/// What a waiter waits for.
#[derive(Clone, Copy, Debug, PartialEq, Eq, Structural)]
pub enum WaiterKind {
    /// A time.
    Time,
    /// A beat of a tempo.
    Beat {
        /// The tempo.
        tempo_id: u64,
    },
    /// The next frame.
    Frame,
}

/// What a scheduler is.
#[verifier::ext_equal]
pub struct SchedView {
    /// Where logical time comes from.
    pub mode: SchedulerMode,
    /// The next sequence number.
    pub seq: u64,
    /// The latest time that any wait has reached.
    pub most_recent_desc_time: Flt,
    /// How fast logical time runs.
    pub rate: Flt,
    /// The logical time at the wall-clock anchor.
    pub logical_anchor: Flt,
    /// The logical time when stepping.
    pub offline_now: Flt,
    /// The waits for a time.
    pub times: Map<u64, (Flt, u64, TimeWaitMeta)>,
    /// The waits for a beat, for each tempo.
    pub beats: Map<u64, Map<u64, (Flt, u64, BeatWaitMeta)>>,
    /// When the first wait of each tempo is due.
    pub heads: Map<u64, (Flt, u64, TempoHeadMeta)>,
    /// The waits for the next frame.
    pub frames: Map<u64, (Flt, u64, FrameWaitMeta)>,
}

/// The entries after one more was added; an id that is taken stays as it is.
pub open spec fn added<M>(
    q: Map<u64, (Flt, u64, M)>,
    id: u64,
    deadline: Flt,
    tie: u64,
    meta: M,
) -> Map<u64, (Flt, u64, M)> {
    if q.contains_key(id) {
        q
    } else {
        q.insert(id, (deadline, tie, meta))
    }
}

impl SchedView {
    /// A scheduler without waits.
    pub open spec fn initial(mode: SchedulerMode) -> SchedView {
        SchedView {
            mode,
            seq: 0,
            most_recent_desc_time: Flt::zero(),
            rate: Flt::one(),
            logical_anchor: Flt::zero(),
            offline_now: Flt::zero(),
            times: Map::empty(),
            beats: Map::empty(),
            heads: Map::empty(),
            frames: Map::empty(),
        }
    }

    /// The logical time, `wall` seconds after the wall-clock anchor.
    pub open spec fn now(self, wall: Flt) -> Flt {
        match self.mode {
            SchedulerMode::Offline => self.offline_now,
            SchedulerMode::Realtime => self.logical_anchor.plus(wall.times(self.rate)),
        }
    }

    /// After the rate was set, `wall` seconds after the old anchor. Stepping
    /// has no rate.
    pub open spec fn with_rate(self, rate: Flt, wall: Flt) -> SchedView {
        match self.mode {
            SchedulerMode::Offline => self,
            SchedulerMode::Realtime => SchedView {
                rate: tempo::positive(rate),
                logical_anchor: self.now(wall),
                ..self
            },
        }
    }

    /// When the next wait is due, where that is a finite time.
    pub open spec fn next_event(self) -> Option<Flt> {
        let t = pq::earliest(self.times).smaller(pq::earliest(self.heads));
        if t.finite() {
            Some(t)
        } else {
            None
        }
    }

    /// The waits for a beat of a tempo.
    pub open spec fn beats_of(self, id: u64) -> Map<u64, (Flt, u64, BeatWaitMeta)> {
        if self.beats.contains_key(id) {
            self.beats[id]
        } else {
            Map::empty()
        }
    }

    /// When the first wait of a tempo is due.
    pub open spec fn head_due(self, tempos: Map<u64, TempoView>, id: u64) -> Flt {
        let q = self.beats_of(id);
        tempo::time_at(tempos[id].segs, q[pq::first(q)].2.target_beat)
    }

    /// After the time at which the first wait of a tempo is due was worked
    /// out anew. A time that is not finite changes nothing.
    pub open spec fn refreshed(self, tempos: Map<u64, TempoView>, id: u64) -> SchedView {
        if self.beats_of(id).is_empty() {
            SchedView { heads: self.heads.remove(id), ..self }
        } else {
            let due = self.head_due(tempos, id);
            if !due.finite() {
                self
            } else if self.heads.contains_key(id) {
                SchedView {
                    heads: self.heads.insert(id, (due, self.heads[id].1, self.heads[id].2)),
                    ..self
                }
            } else {
                SchedView {
                    heads: self.heads.insert(id, (due, 0, TempoHeadMeta { tempo_id: id })),
                    ..self
                }
            }
        }
    }

    /// After a wait for a time was added.
    pub open spec fn with_time_wait(self, m: TimeWaitMeta) -> SchedView {
        SchedView { times: added(self.times, m.waiter_id, m.target_time, m.seq, m), ..self }
    }

    /// After a wait for a beat was added.
    pub open spec fn with_beat_wait(self, tempos: Map<u64, TempoView>, m: BeatWaitMeta) -> SchedView {
        let q = added(self.beats_of(m.tempo_id), m.waiter_id, m.target_beat, m.seq, m);
        SchedView { beats: self.beats.insert(m.tempo_id, q), ..self }.refreshed(
            tempos,
            m.tempo_id,
        )
    }

    /// After a wait for the next frame was added.
    pub open spec fn with_frame_wait(self, m: FrameWaitMeta) -> SchedView {
        SchedView { frames: self.frames.insert(m.waiter_id, (Flt::zero(), m.seq, m)), ..self }
    }

    /// The waiter is queued.
    pub open spec fn waiting(self, id: u64, kind: WaiterKind) -> bool {
        match kind {
            WaiterKind::Time => self.times.contains_key(id),
            WaiterKind::Beat { tempo_id } => self.beats_of(tempo_id).contains_key(id),
            WaiterKind::Frame => self.frames.contains_key(id),
        }
    }

    /// After a waiter was taken out.
    pub open spec fn without(
        self,
        tempos: Map<u64, TempoView>,
        id: u64,
        kind: WaiterKind,
    ) -> SchedView {
        match kind {
            WaiterKind::Time => SchedView { times: self.times.remove(id), ..self },
            WaiterKind::Beat { tempo_id } => {
                let less = if self.beats.contains_key(tempo_id) {
                    self.beats.insert(tempo_id, self.beats[tempo_id].remove(id))
                } else {
                    self.beats
                };
                SchedView { beats: less, ..self }.refreshed(tempos, tempo_id)
            },
            WaiterKind::Frame => SchedView { frames: self.frames.remove(id), ..self },
        }
    }

    /// After the waits due first were taken out, and which they were.
    pub open spec fn sliced(self, tempos: Map<u64, TempoView>) -> (SchedView, Seq<u64>) {
        let t = pq::earliest(self.times);
        if t.at_most(pq::earliest(self.heads)) {
            (SchedView { times: pq::rest(self.times, t), ..self }, pq::due(self.times, t))
        } else {
            self.beat_sliced(tempos)
        }
    }

    /// After the first waits of the tempo that is due first were taken out,
    /// and which they were. Where that tempo reaches their beat at no finite
    /// time, one of them is dropped instead.
    pub open spec fn beat_sliced(self, tempos: Map<u64, TempoView>) -> (SchedView, Seq<u64>) {
        let id = pq::first(self.heads);
        let s = SchedView { heads: self.heads.remove(id), ..self };
        let q = self.beats_of(id);
        let beat = pq::earliest(q);
        if self.heads.is_empty() {
            (self, Seq::empty())
        } else if q.is_empty() {
            (s, Seq::empty())
        } else if !self.head_due(tempos, id).finite() {
            (
                SchedView {
                    beats: self.beats.insert(id, q.remove(pq::first(q))),
                    ..s
                }.refreshed(tempos, id),
                Seq::empty(),
            )
        } else {
            (
                SchedView { beats: self.beats.insert(id, pq::rest(q, beat)), ..s }.refreshed(
                    tempos,
                    id,
                ),
                pq::due(q, beat),
            )
        }
    }

    /// Some wait has not come due.
    pub open spec fn pending(self) -> bool {
        ||| !self.times.is_empty()
        ||| exists|id: u64| #[trigger]
            self.beats.contains_key(id) && !self.beats[id].is_empty()
        ||| !self.frames.is_empty()
    }

    /// Every wait for a beat stands under the beat that it waits for, and
    /// every wait for a frame under the same deadline.
    pub open spec fn keyed(self) -> bool {
        &&& forall|t: u64, id: u64|
            #![trigger self.beats[t].contains_key(id)]
            self.beats.contains_key(t) && self.beats[t].contains_key(id) ==> self.beats[t][id].0
                == self.beats[t][id].2.target_beat
        &&& forall|id: u64| #[trigger]
            self.frames.contains_key(id) ==> self.frames[id].0 == Flt::zero()
    }

    /// Every tempo whose beats are waited for has a map.
    pub open spec fn covered(self, tempos: Map<u64, TempoView>) -> bool {
        forall|id: u64| #[trigger] self.beats.contains_key(id) ==> tempos.contains_key(id)
    }
}

/// The waits, and the clock.
pub struct TimeScheduler {
    /// Where logical time comes from.
    pub mode: SchedulerMode,
    /// The latest time that any wait has reached.
    pub most_recent_desc_time: Flt,
    /// The logical time when stepping.
    pub offline_now: Flt,
    seq: u64,
    rate: Flt,
    logical_anchor: Flt,
    time_pq: MinPq<TimeWaitMeta>,
    beat_pqs: HashMap<u64, MinPq<BeatWaitMeta>>,
    /// The tempos in `beat_pqs`.
    beat_ids: Vec<u64>,
    tempo_head_pq: MinPq<TempoHeadMeta>,
    frame_waiters: MinPq<FrameWaitMeta>,
}

impl View for TimeScheduler {
    type V = SchedView;

    closed spec fn view(&self) -> SchedView {
        SchedView {
            mode: self.mode,
            seq: self.seq,
            most_recent_desc_time: self.most_recent_desc_time,
            rate: self.rate,
            logical_anchor: self.logical_anchor,
            offline_now: self.offline_now,
            times: self.time_pq@,
            beats: self.beat_pqs@.map_values(|q: MinPq<BeatWaitMeta>| q@),
            heads: self.tempo_head_pq@,
            frames: self.frame_waiters@,
        }
    }
}

impl TimeScheduler {
    /// The queues are well-formed, their entries stand under the right keys,
    /// and the list of tempos is the list of the queues.
    pub closed spec fn wf(&self) -> bool {
        &&& self.time_pq.wf()
        &&& self.tempo_head_pq.wf()
        &&& self.frame_waiters.wf()
        &&& forall|id: u64| #[trigger] self.beat_pqs@.contains_key(id) ==> self.beat_pqs@[id].wf()
        &&& forall|id: u64| #[trigger]
            self.beat_pqs@.contains_key(id) <==> self.beat_ids@.contains(id)
        &&& self@.keyed()
    }

    /// The numbers of waits have not run out.
    pub fn has_room(&self) -> (r: bool)
        ensures
            r == (self@.seq < u64::MAX),
    {
        self.seq < u64::MAX
    }

    /// A scheduler without waits, at time 0.
    pub fn new(mode: SchedulerMode) -> (r: Self)
        ensures
            r.wf(),
            r@ == SchedView::initial(mode),
    {
        let r: TimeScheduler = TimeScheduler {
            mode,
            most_recent_desc_time: Flt::zero(),
            offline_now: Flt::zero(),
            seq: 0,
            rate: Flt::one(),
            logical_anchor: Flt::zero(),
            time_pq: MinPq::new(),
            beat_pqs: HashMap::new(),
            beat_ids: Vec::new(),
            tempo_head_pq: MinPq::new(),
            frame_waiters: MinPq::new(),
        };
        assert(r@ =~= SchedView::initial(mode));
        r
    }

    /// Hands out the next sequence number.
    pub fn alloc_seq(&mut self) -> (r: u64)
        requires
            old(self).wf(),
            old(self)@.seq < u64::MAX,
        ensures
            final(self).wf(),
            final(self)@ == (SchedView { seq: (old(self)@.seq + 1) as u64, ..old(self)@ }),
            r == old(self)@.seq,
    {
        let s: u64 = self.seq;
        self.seq = s + 1;
        s
    }

    /// The logical time, `wall` seconds after the wall-clock anchor.
    pub fn now(&self, wall: Flt) -> (r: Flt)
        ensures
            r == self@.now(wall),
    {
        match self.mode {
            SchedulerMode::Offline => self.offline_now,
            SchedulerMode::Realtime => self.logical_anchor.sum(wall.product(self.rate)),
        }
    }

    /// Sets how fast logical time runs, `wall` seconds after the wall-clock
    /// anchor. In real time the host moves its anchor to the present.
    pub fn set_rate(&mut self, rate: Flt, wall: Flt)
        requires
            old(self).wf(),
        ensures
            final(self).wf(),
            final(self)@ == old(self)@.with_rate(rate, wall),
    {
        match self.mode {
            SchedulerMode::Offline => {},
            SchedulerMode::Realtime => {
                let now: Flt = self.now(wall);
                self.logical_anchor = now;
                self.rate = clamp_pos(rate);
            },
        }
    }

    /// How fast logical time runs.
    pub fn rate(&self) -> (r: Flt)
        ensures
            r == self@.rate,
    {
        self.rate
    }

    /// Where logical time comes from.
    pub fn mode(&self) -> (r: SchedulerMode)
        ensures
            r == self@.mode,
    {
        self.mode
    }

    /// The latest time that any wait has reached.
    pub fn most_recent(&self) -> (r: Flt)
        ensures
            r == self@.most_recent_desc_time,
    {
        self.most_recent_desc_time
    }

    /// The logical time when stepping.
    pub fn offline_time(&self) -> (r: Flt)
        ensures
            r == self@.offline_now,
    {
        self.offline_now
    }

    /// Moves the latest time that any wait has reached.
    pub fn set_most_recent(&mut self, t: Flt)
        requires
            old(self).wf(),
        ensures
            final(self).wf(),
            final(self)@ == (SchedView { most_recent_desc_time: t, ..old(self)@ }),
    {
        self.most_recent_desc_time = t;
    }

    /// Moves the logical time when stepping.
    pub fn set_offline_now(&mut self, t: Flt)
        requires
            old(self).wf(),
        ensures
            final(self).wf(),
            final(self)@ == (SchedView { offline_now: t, ..old(self)@ }),
    {
        self.offline_now = t;
    }

    /// When the first wait for a time is due; infinity where there is none.
    fn first_time(&mut self) -> (r: Flt)
        requires
            old(self).wf(),
        ensures
            final(self).wf(),
            final(self)@ == old(self)@,
            r == pq::earliest(old(self)@.times),
    {
        match self.time_pq.peek_deadline() {
            Some(t) => t,
            None => Flt::infinity(),
        }
    }

    /// When the first wait for a beat is due; infinity where there is none.
    fn first_head(&mut self) -> (r: Flt)
        requires
            old(self).wf(),
        ensures
            final(self).wf(),
            final(self)@ == old(self)@,
            r == pq::earliest(old(self)@.heads),
    {
        match self.tempo_head_pq.peek_deadline() {
            Some(t) => t,
            None => Flt::infinity(),
        }
    }

    /// When the next wait is due, where that is a finite time.
    pub fn peek_next_event_time(&mut self) -> (r: Option<Flt>)
        requires
            old(self).wf(),
        ensures
            final(self).wf(),
            final(self)@ == old(self)@,
            r == old(self)@.next_event(),
    {
        let next: Flt = self.first_time().min(self.first_head());
        if next.is_finite() {
            Some(next)
        } else {
            None
        }
    }

    /// Adds a wait for a time.
    pub fn add_time_wait(&mut self, meta: TimeWaitMeta)
        requires
            old(self).wf(),
        ensures
            final(self).wf(),
            final(self)@ == old(self)@.with_time_wait(meta),
    {
        self.time_pq.add(meta.waiter_id, meta.target_time, meta.seq, meta);
    }

    /// Takes the waits for a beat of a tempo out to change them.
    fn take_beats(&mut self, id: u64) -> (r: Option<MinPq<BeatWaitMeta>>)
        requires
            old(self).wf(),
        ensures
            final(self).partly_wf(id),
            final(self)@ == (SchedView { beats: old(self)@.beats.remove(id), ..old(self)@ }),
            final(self).beat_ids == old(self).beat_ids,
            r is Some == old(self)@.beats.contains_key(id),
            match r {
                Some(q) => q.wf() && q@ == old(self)@.beats[id] && forall|k: u64| #[trigger]
                    q@.contains_key(k) ==> q@[k].0 == q@[k].2.target_beat,
                None => true,
            },
    {
        let r: Option<MinPq<BeatWaitMeta>> = self.beat_pqs.remove(&id);
        assert(self@.beats =~= old(self)@.beats.remove(id));
        proof {
            if old(self)@.beats.contains_key(id) {
                assert forall|k: u64| #[trigger] r->0@.contains_key(k) implies r->0@[k].0
                    == r->0@[k].2.target_beat by {
                    assert(old(self)@.beats[id].contains_key(k));
                }
            }
            assert forall|t: u64, k: u64|
                #![trigger self@.beats[t].contains_key(k)]
                self@.beats.contains_key(t) && self@.beats[t].contains_key(k) implies
                self@.beats[t][k].0 == self@.beats[t][k].2.target_beat by {
                assert(old(self)@.beats[t].contains_key(k));
            }
        }
        r
    }

    /// Well-formed but for the queue of one tempo.
    spec fn partly_wf(&self, id: u64) -> bool {
        &&& self.time_pq.wf()
        &&& self.tempo_head_pq.wf()
        &&& self.frame_waiters.wf()
        &&& forall|k: u64| #[trigger] self.beat_pqs@.contains_key(k) ==> self.beat_pqs@[k].wf()
        &&& forall|k: u64|
            k != id ==> (#[trigger] self.beat_pqs@.contains_key(k) <==> self.beat_ids@.contains(k))
        &&& self@.keyed()
        &&& !self.beat_pqs@.contains_key(id)
    }

    /// Puts the waits for a beat of a tempo back.
    fn put_beats(&mut self, id: u64, q: MinPq<BeatWaitMeta>)
        requires
            old(self).partly_wf(id),
            old(self).beat_ids@.contains(id),
            q.wf(),
            forall|k: u64| #[trigger] q@.contains_key(k) ==> q@[k].0 == q@[k].2.target_beat,
        ensures
            final(self).wf(),
            final(self)@ == (SchedView {
                beats: old(self)@.beats.insert(id, q@),
                ..old(self)@
            }),
    {
        self.beat_pqs.insert(id, q);
        proof {
            assert(self@.beats =~= old(self)@.beats.insert(id, q@));
            assert forall|t: u64, k: u64|
                #![trigger self@.beats[t].contains_key(k)]
                self@.beats.contains_key(t) && self@.beats[t].contains_key(k) implies
                self@.beats[t][k].0 == self@.beats[t][k].2.target_beat by {
                if t != id {
                    assert(old(self)@.beats[t].contains_key(k));
                }
            }
        }
    }

    /// Adds a wait for a beat.
    pub fn add_beat_wait(&mut self, meta: BeatWaitMeta, tempos: &Tempos)
        requires
            old(self).wf(),
            tempos.wf(),
            tempos@.maps.contains_key(meta.tempo_id),
        ensures
            final(self).wf(),
            final(self)@ == old(self)@.with_beat_wait(tempos@.maps, meta),
    {
        let id: u64 = meta.tempo_id;
        let mut q: MinPq<BeatWaitMeta> = match self.take_beats(id) {
            Some(q) => q,
            None => {
                let ghost ids = self.beat_ids@;
                self.beat_ids.push(id);
                proof {
                    assert(self.beat_ids@.last() == id);
                    assert forall|k: u64| k != id implies (self.beat_ids@.contains(k)
                        <==> ids.contains(k)) by {
                        if ids.contains(k) {
                            let i = choose|i: int| 0 <= i < ids.len() && ids[i] == k;
                            assert(self.beat_ids@[i] == k);
                        }
                    }
                }
                MinPq::new()
            },
        };
        assert(q@ == old(self)@.beats_of(id));
        q.add(meta.waiter_id, meta.target_beat, meta.seq, meta);
        self.put_beats(id, q);
        assert(self@.beats =~= old(self)@.beats.insert(id, q@));
        self.refresh_tempo_head(id, tempos);
    }

    /// Adds a wait for the next frame, in place of one with the same id.
    pub fn add_frame_wait(&mut self, meta: FrameWaitMeta)
        requires
            old(self).wf(),
        ensures
            final(self).wf(),
            final(self)@ == old(self)@.with_frame_wait(meta),
    {
        self.frame_waiters.remove(meta.waiter_id);
        self.frame_waiters.add(meta.waiter_id, Flt::zero(), meta.seq, meta);
        assert(self@.frames =~= old(self)@.with_frame_wait(meta).frames);
    }

    /// Works out anew when the first wait of a tempo is due.
    fn refresh_tempo_head(&mut self, id: u64, tempos: &Tempos)
        requires
            old(self).wf(),
            tempos.wf(),
            tempos@.maps.contains_key(id),
        ensures
            final(self).wf(),
            final(self)@ == old(self)@.refreshed(tempos@.maps, id),
    {
        match self.first_beat(id) {
            Some(meta) => {
                let due: Flt = tempos.get(id).time_at_beats(meta.target_beat);
                if due.is_finite() {
                    if !self.tempo_head_pq.adjust_deadline(id, due) {
                        self.tempo_head_pq.add(id, due, 0, TempoHeadMeta { tempo_id: id });
                    }
                }
            },
            None => {
                self.tempo_head_pq.remove(id);
            },
        }
    }

    /// The first wait for a beat of a tempo.
    fn first_beat(&mut self, id: u64) -> (r: Option<BeatWaitMeta>)
        requires
            old(self).wf(),
        ensures
            final(self).wf(),
            final(self)@ == old(self)@,
            r == (if old(self)@.beats_of(id).is_empty() {
                None
            } else {
                let q = old(self)@.beats_of(id);
                Some(q[pq::first(q)].2)
            }),
    {
        match self.take_beats(id) {
            Some(mut q) => {
                let head: Option<(u64, Flt, u64, BeatWaitMeta)> = q.peek_meta();
                proof {
                    assert(self.beat_pqs@.contains_key(id) || self.beat_ids@.contains(id));
                }
                self.put_beats(id, q);
                assert(self@.beats =~= old(self)@.beats);
                match head {
                    Some((_, _, _, meta)) => Some(meta),
                    None => None,
                }
            },
            None => {
                assert(self@.beats =~= old(self)@.beats);
                None
            },
        }
    }

    /// Works out anew when the waits of a tempo that changed are due.
    pub fn on_tempo_changed(&mut self, tempo_id: u64, tempos: &Tempos)
        requires
            old(self).wf(),
            tempos.wf(),
            tempos@.maps.contains_key(tempo_id),
        ensures
            final(self).wf(),
            final(self)@ == old(self)@.refreshed(tempos@.maps, tempo_id),
    {
        self.refresh_tempo_head(tempo_id, tempos);
    }

    /// Takes a waiter out, and says whether it was there.
    pub fn cancel_waiter(&mut self, id: u64, kind: WaiterKind, tempos: &Tempos) -> (r: bool)
        requires
            old(self).wf(),
            tempos.wf(),
            match kind {
                WaiterKind::Beat { tempo_id } => tempos@.maps.contains_key(tempo_id),
                _ => true,
            },
        ensures
            final(self).wf(),
            final(self)@ == old(self)@.without(tempos@.maps, id, kind),
            r == old(self)@.waiting(id, kind),
    {
        match kind {
            WaiterKind::Time => {
                let gone: Option<TimeWaitMeta> = self.time_pq.remove(id);
                gone.is_some()
            },
            WaiterKind::Beat { tempo_id } => {
                let mut found: bool = false;
                match self.take_beats(tempo_id) {
                    Some(mut q) => {
                        let gone: Option<BeatWaitMeta> = q.remove(id);
                        found = gone.is_some();
                        self.put_beats(tempo_id, q);
                        assert(self@.beats =~= old(self)@.beats.insert(tempo_id, q@));
                    },
                    None => {
                        assert(self@.beats =~= old(self)@.beats);
                    },
                }
                self.refresh_tempo_head(tempo_id, tempos);
                found
            },
            WaiterKind::Frame => {
                let gone: Option<FrameWaitMeta> = self.frame_waiters.remove(id);
                gone.is_some()
            },
        }
    }

    /// Takes out the waits that are due first: those for the earliest time,
    /// or those for the earliest beat of a tempo, whichever comes first. They
    /// come in the order of their sequence numbers.
    pub fn process_one_timeslice(&mut self, tempos: &Tempos) -> (r: Vec<u64>)
        requires
            old(self).wf(),
            tempos.wf(),
            old(self)@.covered(tempos@.maps),
        ensures
            final(self).wf(),
            final(self)@ == old(self)@.sliced(tempos@.maps).0,
            r@ == old(self)@.sliced(tempos@.maps).1,
    {
        let t_time: Flt = self.first_time();
        let t_beat: Flt = self.first_head();
        if t_time.le(t_beat) {
            let r: Vec<u64> = self.time_pq.pop_due(t_time);
            assert(self@.beats =~= old(self)@.beats && self@.frames =~= old(self)@.frames);
            r
        } else {
            self.process_beat_waiters_for_earliest_tempo(tempos)
        }
    }

    /// Takes out the first waits of the tempo that is due first.
    fn process_beat_waiters_for_earliest_tempo(&mut self, tempos: &Tempos) -> (r: Vec<u64>)
        requires
            old(self).wf(),
            tempos.wf(),
            old(self)@.covered(tempos@.maps),
        ensures
            final(self).wf(),
            final(self)@ == old(self)@.beat_sliced(tempos@.maps).0,
            r@ == old(self)@.beat_sliced(tempos@.maps).1,
    {
        let id: u64 = match self.tempo_head_pq.pop() {
            Some((id, _, _, _)) => id,
            None => {
                return Vec::new();
            },
        };
        assert(self@.beats =~= old(self)@.beats && self@.frames =~= old(self)@.frames);
        let head: BeatWaitMeta = match self.first_beat(id) {
            Some(meta) => meta,
            None => {
                return Vec::new();
            },
        };
        let due: Flt = tempos.get(id).time_at_beats(head.target_beat);
        let mut out: Vec<u64> = Vec::new();
        match self.take_beats(id) {
            Some(mut q) => {
                let ghost was = q@;
                proof {
                    q.finite();
                    pq::first_exists(was);
                }
                if due.is_finite() {
                    out = q.pop_due(head.target_beat);
                    proof {
                        pq::due_comes_in_order(was, head.target_beat);
                        assert forall|k: u64| #[trigger] q@.contains_key(k) implies q@[k].0
                            == q@[k].2.target_beat by {
                            assert(was.contains_key(k));
                        }
                    }
                } else {
                    let _ = q.pop();
                }
                self.put_beats(id, q);
                assert(self@.beats =~= old(self)@.beats.insert(id, q@));
            },
            None => {},
        }
        self.refresh_tempo_head(id, tempos);
        out
    }

    /// Takes out all waits for the next frame, in the order of their
    /// sequence numbers.
    pub fn resolve_all_frame_waiters(&mut self) -> (r: Vec<u64>)
        requires
            old(self).wf(),
        ensures
            final(self).wf(),
            final(self)@ == (SchedView { frames: Map::empty(), ..old(self)@ }),
            r@ == pq::due(old(self)@.frames, Flt::zero()),
    {
        proof {
            let q = old(self)@.frames;
            self.frame_waiters.finite();
            pq::due_comes_in_order(q, Flt::zero());
            if !q.is_empty() {
                pq::first_exists(q);
            }
        }
        let r: Vec<u64> = self.frame_waiters.pop_due(Flt::zero());
        proof {
            assert forall|id: u64| !self@.frames.contains_key(id) by {
                if self@.frames.contains_key(id) {
                    assert(old(self)@.frames.contains_key(id));
                }
            }
            assert(self@.frames =~= Map::empty());
            assert(self@.beats =~= old(self)@.beats);
        }
        r
    }

    /// Some wait has not come due.
    pub fn has_pending_waits(&self) -> (r: bool)
        requires
            self.wf(),
        ensures
            r == self@.pending(),
    {
        if !self.time_pq.is_empty() || !self.frame_waiters.is_empty() {
            return true;
        }
        let mut i: usize = 0;
        while i < self.beat_ids.len()
            invariant
                self.wf(),
                self@.times.is_empty(),
                self@.frames.is_empty(),
                i <= self.beat_ids.len(),
                forall|j: int|
                    0 <= j < i ==> self@.beats_of(#[trigger] self.beat_ids@[j]).is_empty(),
            decreases self.beat_ids.len() - i,
        {
            let id: u64 = self.beat_ids[i];
            assert(self.beat_ids@.contains(id));
            match self.beat_pqs.get(&id) {
                Some(q) => {
                    if !q.is_empty() {
                        assert(self@.beats.contains_key(id) && !self@.beats[id].is_empty());
                        return true;
                    }
                },
                None => {},
            }
            i = i + 1;
        }
        proof {
            assert forall|id: u64| #[trigger] self@.beats.contains_key(id) implies
                self@.beats[id].is_empty() by {
                assert(self.beat_pqs@.contains_key(id));
                let j = choose|j: int| 0 <= j < self.beat_ids@.len() && self.beat_ids@[j] == id;
                assert(self@.beats_of(self.beat_ids@[j]).is_empty());
            }
        }
        false
    }
}

} // verus!

//! Times and beats after any number of changes of the tempo.
use vstd::prelude::*;

use crate::flt::near;
use crate::flt::Flt;
use crate::inverse::built;
use crate::inverse::course;
use crate::inverse::forth;
use crate::inverse::scale;
use crate::tempo;
use crate::tempo::TempoSegment;

verus! {

/// A change of the tempo.
pub enum Change {
    /// The tempo is set.
    Jump {
        /// The tempo.
        bpm: Flt,
        /// From when on.
        t: Flt,
    },
    /// The tempo moves to a target.
    Ramp {
        /// The target.
        bpm: Flt,
        /// How long that takes.
        dur: Flt,
        /// When it starts.
        t: Flt,
    },
}

/// The segments after a change.
pub open spec fn changed(segs: Seq<TempoSegment>, c: Change) -> Seq<TempoSegment> {
    match c {
        Change::Jump { bpm, t } => tempo::with_bpm(segs, bpm, t),
        Change::Ramp { bpm, dur, t } => tempo::with_ramp(segs, bpm, dur, t),
    }
}

/// A tempo of 1 to 1000.
pub open spec fn ordinary_tempo(bpm: Flt) -> bool {
    bpm.finite() && scale::unit() <= bpm.val() <= 1000 * scale::unit()
}

/// A change of ordinary size: to a tempo of 1 to 1000, in the first 1000
/// seconds, at a place where the segment can be cut. A ramp takes no time, or
/// 2^-880 to 1000 seconds, and moves the tempo, if at all, by so much that its
/// slope counts.
pub open spec fn ordinary(segs: Seq<TempoSegment>, c: Change) -> bool {
    let (bpm, t) = match c {
        Change::Jump { bpm, t } => (bpm, t),
        Change::Ramp { bpm, t, .. } => (bpm, t),
    };
    &&& ordinary_tempo(bpm)
    &&& t.finite()
    &&& 0 <= t.val() <= 1000 * scale::unit()
    &&& built::may_cut(segs, t)
    &&& course::brief_count(segs) + 1 < 0x100_0000_0000
    &&& c matches Change::Ramp { dur, .. } ==> {
        ||| dur.at_most(Flt::zero())
        ||| {
            &&& dur.finite()
            &&& scale::least() <= dur.val() <= 1000 * scale::unit()
            &&& ordinary_tempo(tempo::bpm_at(segs, t))
            &&& built::moves(dur.val(), bpm.val() - tempo::bpm_at(segs, t).val())
        }
    }
}

/// The segments of a new map after some changes.
pub open spec fn after_changes(bpm: Flt, changes: Seq<Change>) -> Seq<TempoSegment>
    decreases changes.len(),
{
    if changes.len() == 0 {
        seq![tempo::steady(Flt::zero(), bpm, Flt::zero())]
    } else {
        changed(after_changes(bpm, changes.drop_last()), changes.last())
    }
}

/// Each of the changes is of ordinary size when its turn comes.
pub open spec fn all_ordinary(bpm: Flt, changes: Seq<Change>) -> bool
    decreases changes.len(),
{
    changes.len() > 0 ==> all_ordinary(bpm, changes.drop_last()) && ordinary(
        after_changes(bpm, changes.drop_last()),
        changes.last(),
    )
}

proof fn lemma_joined(bpm: Flt, changes: Seq<Change>)
    requires
        ordinary_tempo(bpm),
        all_ordinary(bpm, changes),
    ensures
        course::joined(after_changes(bpm, changes)),
    decreases changes.len(),
{
    if changes.len() == 0 {
        built::new_map_is_joined(bpm);
    } else {
        let segs = after_changes(bpm, changes.drop_last());
        lemma_joined(bpm, changes.drop_last());
        match changes.last() {
            Change::Jump { bpm: to, t } => {
                built::set_tempo_keeps_joined(segs, to, t);
            },
            Change::Ramp { bpm: to, dur, t } => {
                if dur.at_most(Flt::zero()) {
                    built::ramp_of_no_length_keeps_joined(segs, to, dur, t);
                } else {
                    built::ramp_keeps_joined(segs, to, dur, t);
                }
            },
        }
    }
}

/// After any number of changes, of which no more than 200 have left segments
/// shorter than 2^-20 of a second, the time of the beats at a time is that time,
/// to within a millionth of a second.
pub proof fn time_comes_back_after_changes(bpm: Flt, changes: Seq<Change>, u: Flt)
    requires
        ordinary_tempo(bpm),
        all_ordinary(bpm, changes),
        course::brief_count(after_changes(bpm, changes)) <= 200,
        u.finite(),
        0 <= u.val() <= 1000 * scale::unit(),
    ensures
        ({
            let segs = after_changes(bpm, changes);
            let back = tempo::time_at(segs, tempo::beats_at(segs, u));
            back.finite() && 1000000 * near::size(back.val() - u.val()) < scale::unit()
        }),
{
    lemma_joined(bpm, changes);
    course::time_comes_back_within_a_millionth(after_changes(bpm, changes), u);
}

/// So do the beats at the time of a beat, to within 2^-18 of a beat, and 2^-33
/// more for each segment that is shorter than 2^-20 of a second.
pub proof fn beats_come_back_after_changes(bpm: Flt, changes: Seq<Change>, beats: Flt)
    requires
        ordinary_tempo(bpm),
        all_ordinary(bpm, changes),
        beats.finite(),
        0 <= beats.val() <= 0x1_0000 * scale::unit(),
        tempo::time_at(after_changes(bpm, changes), beats).val() <= 1000 * scale::unit(),
    ensures
        ({
            let segs = after_changes(bpm, changes);
            let back = tempo::beats_at(segs, tempo::time_at(segs, beats));
            back.finite() && near::off(
                back.val(),
                beats.val(),
                0x400_0000 * scale::step() + course::brief_count(segs) * (0x800 * scale::step()),
            )
        }),
{
    lemma_joined(bpm, changes);
    forth::beats_come_back_in_map(after_changes(bpm, changes), beats);
}

} // verus!

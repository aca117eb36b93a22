//! What holds of a tracker's state at each step of a frame, and why each step
//! keeps it.

use vstd::prelude::*;
use crate::tracker::byte_tracker::{
    confirmed_by, high_track, if_confirmed, if_expired, if_surviving, if_tracking, if_unconfirmed,
    lost_now, predicted_tracks, refound_by, removed_now, started, still_tracking, track_at,
    updated_by, FrameStage, TrackerView, SECOND_MATCH_BITS, UNCONFIRMED_MATCH_BITS,
};
use crate::tracker::matching::{
    lemma_assignment_is_one_to_one, lemma_mapped, spec_linear_assignment, Assignment, CostMatrix,
    Detection,
};
use crate::tracker::moments::Moments;
use crate::tracker::single::Single;
use crate::tracker::strack::STrack;
use crate::tracker::track_sets::{
    disjoint_ids, distinct_ids, draws, lemma_distinct_concat, lemma_drawn, lemma_drawn_all,
    lemma_drawn_apart, lemma_drawn_away, lemma_joint, lemma_kept, lemma_minus,
    lemma_without_duplicates, row_of_index, row_of_match,
};
use crate::tracker::track_state::TrackState;

verus! {

/// A track that was activated: its identifier is one that was issued, it
/// holds an estimate of the filter, it started no later than it was last
/// updated, which was no later than `frame`, and it was not updated more
/// often than frames have passed.
pub open spec fn live(t: STrack, frame: int, top: u64) -> bool {
    &&& 1 <= t.track_id <= top
    &&& t.has_moments()
    &&& t.start_frame <= t.frame_id <= frame
    &&& t.tracklet_len <= t.frame_id - t.start_frame
}

pub open spec fn all_live(s: Seq<STrack>, frame: int, top: u64) -> bool {
    forall|i: int| 0 <= i < s.len() ==> live(#[trigger] s[i], frame, top)
}

pub open spec fn all_in(s: Seq<STrack>, state: TrackState) -> bool {
    forall|i: int| 0 <= i < s.len() ==> (#[trigger] s[i]).state == state
}

/// Every track of `s` was last updated in `frame`.
pub open spec fn all_at(s: Seq<STrack>, frame: int) -> bool {
    forall|i: int| 0 <= i < s.len() ==> (#[trigger] s[i]).frame_id == frame
}

/// No lost track is overdue: each was last seen at most `max_time_lost`
/// frames before `frame`, or in the frame before it.
pub open spec fn none_overdue(lost: Seq<STrack>, frame: int, max_time_lost: u32) -> bool {
    forall|i: int|
        0 <= i < lost.len() ==> frame - (#[trigger] lost[i]).frame_id <= max_time_lost
            || lost[i].frame_id + 1 == frame
}

/// A row of the pool: a confirmed track of the frame before, whose
/// identifier no lost track has, or a lost track.
pub open spec fn pool_row(p: STrack, lost: Seq<STrack>, frame: int) -> bool {
    ||| p.state == TrackState::Lost
    ||| {
        &&& p.state == TrackState::Tracking
        &&& p.frame_id + 1 == frame
        &&& forall|j: int| 0 <= j < lost.len() ==> (#[trigger] lost[j]).track_id != p.track_id
    }
}

impl TrackerView {
    /// Between frames, and before the duplicates are removed: the tracks and
    /// the lost tracks carry identifiers that were issued, none of them twice;
    /// each list holds tracks in its own state; the tracks were all seen in
    /// this frame, and no lost track is overdue.
    pub open spec fn settled(self) -> bool {
        &&& distinct_ids(self.tracked_stracks)
        &&& distinct_ids(self.lost_stracks)
        &&& disjoint_ids(self.tracked_stracks, self.lost_stracks)
        &&& all_live(self.tracked_stracks, self.frame_id as int, self.ids)
        &&& all_in(self.tracked_stracks, TrackState::Tracking)
        &&& all_at(self.tracked_stracks, self.frame_id as int)
        &&& all_live(self.lost_stracks, self.frame_id as int, self.ids)
        &&& all_in(self.lost_stracks, TrackState::Lost)
        &&& all_in(self.removed_stracks, TrackState::Removed)
        &&& none_overdue(self.lost_stracks, self.frame_id as int, self.max_time_lost)
    }

    /// During a frame: the lost tracks and the unconfirmed tracks are those
    /// of the frame before, and identifiers are left for every detection.
    pub open spec fn in_frame(self) -> bool {
        &&& self.frame_id >= 1
        &&& distinct_ids(self.lost_stracks)
        &&& all_live(self.lost_stracks, self.frame_id - 1, self.ids)
        &&& all_in(self.lost_stracks, TrackState::Lost)
        &&& all_in(self.removed_stracks, TrackState::Removed)
        &&& all_in(self.newly_removed, TrackState::Removed)
        &&& self.ids + self.detections.len() <= u64::MAX
        &&& self.detections_rem.len() <= self.detections.len()
        &&& distinct_ids(self.unconfirmed)
        &&& all_live(self.unconfirmed, self.frame_id - 1, self.ids)
        &&& all_in(self.unconfirmed, TrackState::Tracking)
        &&& disjoint_ids(self.unconfirmed, self.lost_stracks)
    }

    /// The tracks updated and found again in this frame.
    pub open spec fn updated_ok(self) -> bool {
        &&& distinct_ids(self.activated)
        &&& distinct_ids(self.refind)
        &&& disjoint_ids(self.activated, self.refind)
        &&& disjoint_ids(self.activated, self.unconfirmed)
        &&& disjoint_ids(self.refind, self.unconfirmed)
        &&& disjoint_ids(self.activated, self.lost_stracks)
        &&& all_live(self.activated, self.frame_id as int, self.ids)
        &&& all_in(self.activated, TrackState::Tracking)
        &&& all_at(self.activated, self.frame_id as int)
        &&& all_live(self.refind, self.frame_id as int, self.ids)
        &&& all_in(self.refind, TrackState::Tracking)
        &&& all_at(self.refind, self.frame_id as int)
    }

    /// Before the first association.
    pub open spec fn first_ok(self) -> bool {
        &&& self.activated.len() == 0
        &&& self.refind.len() == 0
        &&& self.newly_lost.len() == 0
        &&& self.newly_removed.len() == 0
        &&& distinct_ids(self.strack_pool)
        &&& all_live(self.strack_pool, self.frame_id - 1, self.ids)
        &&& forall|i: int|
            0 <= i < self.strack_pool.len() ==> pool_row(
                #[trigger] self.strack_pool[i],
                self.lost_stracks,
                self.frame_id as int,
            )
        &&& disjoint_ids(self.strack_pool, self.unconfirmed)
    }

    /// Before the second association.
    pub open spec fn second_ok(self) -> bool {
        &&& self.updated_ok()
        &&& self.newly_lost.len() == 0
        &&& self.newly_removed.len() == 0
        &&& distinct_ids(self.r_tracked)
        &&& disjoint_ids(self.activated, self.r_tracked)
        &&& disjoint_ids(self.refind, self.r_tracked)
        &&& disjoint_ids(self.r_tracked, self.unconfirmed)
        &&& disjoint_ids(self.r_tracked, self.lost_stracks)
        &&& all_live(self.r_tracked, self.frame_id - 1, self.ids)
        &&& all_in(self.r_tracked, TrackState::Tracking)
        &&& all_at(self.r_tracked, self.frame_id - 1)
    }

    /// Before the association of the unconfirmed tracks.
    pub open spec fn unconfirmed_ok(self) -> bool {
        &&& self.updated_ok()
        &&& self.newly_removed.len() == 0
        &&& distinct_ids(self.newly_lost)
        &&& disjoint_ids(self.activated, self.newly_lost)
        &&& disjoint_ids(self.refind, self.newly_lost)
        &&& disjoint_ids(self.newly_lost, self.unconfirmed)
        &&& disjoint_ids(self.newly_lost, self.lost_stracks)
        &&& all_live(self.newly_lost, self.frame_id - 1, self.ids)
        &&& all_in(self.newly_lost, TrackState::Lost)
        &&& all_at(self.newly_lost, self.frame_id - 1)
    }

    /// What holds of the state at its stage.
    pub open spec fn wf(self) -> bool {
        match self.stage {
            FrameStage::Idle => self.settled(),
            FrameStage::Deduplication => self.settled(),
            FrameStage::Prediction => self.in_frame() && self.first_ok(),
            FrameStage::FirstAssociation => self.in_frame() && self.first_ok(),
            FrameStage::SecondAssociation => self.in_frame() && self.second_ok(),
            FrameStage::UnconfirmedAssociation => self.in_frame() && self.unconfirmed_ok(),
        }
    }
}

/// Beginning a frame keeps the state well formed.
pub proof fn lemma_begun(v: TrackerView, dets: Seq<Detection>)
    requires
        v.wf(),
        v.stage == FrameStage::Idle,
        v.frame_id < u32::MAX,
        v.ids + dets.len() <= u64::MAX,
    ensures
        v.begun(dets).wf(),
{
    let n = v.begun(dets);
    let confirmed = v.tracked_stracks.filter_map(if_confirmed());
    lemma_mapped(dets, high_track(v.config.track_thresh));
    lemma_mapped(v.tracked_stracks, if_unconfirmed());
    lemma_mapped(v.tracked_stracks, if_confirmed());
    lemma_joint(confirmed, v.lost_stracks);
    assert forall|k: int| 0 <= k < n.unconfirmed.len() implies exists|l: int|
        0 <= l < v.tracked_stracks.len() && v.tracked_stracks[l] == #[trigger] n.unconfirmed[k]
            && !v.tracked_stracks[l].is_activated by {
        let l = choose|l: int|
            0 <= l < v.tracked_stracks.len() && if_unconfirmed()(#[trigger] v.tracked_stracks[l])
                == Some(n.unconfirmed[k]);
    }
    assert forall|k: int| 0 <= k < confirmed.len() implies exists|l: int|
        0 <= l < v.tracked_stracks.len() && v.tracked_stracks[l] == #[trigger] confirmed[k]
            && v.tracked_stracks[l].is_activated by {
        let l = choose|l: int|
            0 <= l < v.tracked_stracks.len() && if_confirmed()(#[trigger] v.tracked_stracks[l])
                == Some(confirmed[k]);
    }
    assert(distinct_ids(n.unconfirmed)) by {
        assert forall|k1: int, k2: int| 0 <= k1 < k2 < n.unconfirmed.len() implies (
        #[trigger] n.unconfirmed[k1]).track_id != (#[trigger] n.unconfirmed[k2]).track_id by {
            let (l1, l2) = choose|l1: int, l2: int|
                0 <= l1 < l2 < v.tracked_stracks.len() && if_unconfirmed()(
                    #[trigger] v.tracked_stracks[l1],
                ) == Some(n.unconfirmed[k1]) && if_unconfirmed()(#[trigger] v.tracked_stracks[l2])
                    == Some(n.unconfirmed[k2]);
        }
    }
    assert(distinct_ids(confirmed)) by {
        assert forall|k1: int, k2: int| 0 <= k1 < k2 < confirmed.len() implies (
        #[trigger] confirmed[k1]).track_id != (#[trigger] confirmed[k2]).track_id by {
            let (l1, l2) = choose|l1: int, l2: int|
                0 <= l1 < l2 < v.tracked_stracks.len() && if_confirmed()(
                    #[trigger] v.tracked_stracks[l1],
                ) == Some(confirmed[k1]) && if_confirmed()(#[trigger] v.tracked_stracks[l2])
                    == Some(confirmed[k2]);
        }
    }
    assert forall|i: int| 0 <= i < n.unconfirmed.len() implies live(
        #[trigger] n.unconfirmed[i],
        n.frame_id - 1,
        n.ids,
    ) && n.unconfirmed[i].state == TrackState::Tracking by {
        let l = choose|l: int|
            0 <= l < v.tracked_stracks.len() && v.tracked_stracks[l] == n.unconfirmed[i];
    }
    assert forall|i: int, j: int|
        0 <= i < n.unconfirmed.len() && 0 <= j < n.lost_stracks.len() implies (
    #[trigger] n.unconfirmed[i]).track_id != (#[trigger] n.lost_stracks[j]).track_id by {
        let l = choose|l: int|
            0 <= l < v.tracked_stracks.len() && v.tracked_stracks[l] == n.unconfirmed[i];
    }
    assert forall|i: int| 0 <= i < n.strack_pool.len() implies live(
        #[trigger] n.strack_pool[i],
        n.frame_id - 1,
        n.ids,
    ) && pool_row(n.strack_pool[i], n.lost_stracks, n.frame_id as int) by {
        if i < confirmed.len() {
            assert(n.strack_pool[i] == confirmed[i]);
            let l = choose|l: int|
                0 <= l < v.tracked_stracks.len() && v.tracked_stracks[l] == confirmed[i];
        } else {
            assert(v.lost_stracks.contains(n.strack_pool[i]));
            let l = choose|l: int| 0 <= l < v.lost_stracks.len() && v.lost_stracks[l] == n.strack_pool[i];
        }
    }
    assert forall|i: int, j: int|
        0 <= i < n.strack_pool.len() && 0 <= j < n.unconfirmed.len() implies (
    #[trigger] n.strack_pool[i]).track_id != (#[trigger] n.unconfirmed[j]).track_id by {
        let u = choose|u: int|
            0 <= u < v.tracked_stracks.len() && v.tracked_stracks[u] == n.unconfirmed[j]
                && !v.tracked_stracks[u].is_activated;
        if i < confirmed.len() {
            assert(n.strack_pool[i] == confirmed[i]);
            let l = choose|l: int|
                0 <= l < v.tracked_stracks.len() && v.tracked_stracks[l] == confirmed[i]
                    && v.tracked_stracks[l].is_activated;
            assert(l != u);
        } else {
            assert(v.lost_stracks.contains(n.strack_pool[i]));
            let l = choose|l: int| 0 <= l < v.lost_stracks.len() && v.lost_stracks[l] == n.strack_pool[i];
        }
    }
}

/// Storing predictions changes neither identifiers nor states nor frames,
/// so it keeps the state well formed.
pub proof fn lemma_predicted(v: TrackerView, predicted: Seq<Moments>)
    requires
        v.wf(),
        v.stage == FrameStage::Prediction,
        predicted.len() == v.strack_pool.len(),
    ensures
        v.predicted(predicted).wf(),
{
    let pool = predicted_tracks(v.strack_pool, predicted);
    assert forall|i: int| 0 <= i < pool.len() implies (#[trigger] pool[i]).track_id
        == v.strack_pool[i].track_id && pool[i].state == v.strack_pool[i].state && live(
        pool[i],
        v.frame_id - 1,
        v.ids,
    ) && pool_row(pool[i], v.lost_stracks, v.frame_id as int) by {
        assert(live(v.strack_pool[i], v.frame_id - 1, v.ids));
        assert(pool_row(v.strack_pool[i], v.lost_stracks, v.frame_id as int));
    }
    assert forall|i: int, j: int| 0 <= i < j < pool.len() implies (#[trigger] pool[i]).track_id != (
    #[trigger] pool[j]).track_id by {
        assert(v.strack_pool[i].track_id != v.strack_pool[j].track_id);
    }
    assert forall|i: int, j: int| 0 <= i < pool.len() && 0 <= j < v.unconfirmed.len() implies (
    #[trigger] pool[i]).track_id != (#[trigger] v.unconfirmed[j]).track_id by {
        assert(v.strack_pool[i].track_id != v.unconfirmed[j].track_id);
    }
}

/// A track that was updated or found again in `frame`.
pub open spec fn seen_in(frame: u32, top: u64) -> spec_fn(STrack) -> bool {
    |t: STrack| live(t, frame as int, top) && t.state == TrackState::Tracking && t.frame_id == frame
}

/// A track in `state` that was last updated in the frame before `frame`.
pub open spec fn left_in(frame: u32, top: u64, state: TrackState) -> spec_fn(STrack) -> bool {
    |t: STrack| live(t, frame - 1, top) && t.state == state && t.frame_id == frame - 1
}

/// What the rows of an association give: the tracks updated, those found
/// again and the rows left over repeat no identifier and share none, nor any
/// with the lists `apart`; the tracks updated share none with `clear`.
pub proof fn lemma_association(
    rows: Seq<STrack>,
    dets: Seq<STrack>,
    updated: Seq<Moments>,
    r: Assignment,
    cols: nat,
    frame: u32,
    top: u64,
    apart: Seq<STrack>,
    clear: Seq<STrack>,
)
    requires
        frame >= 1,
        distinct_ids(rows),
        all_live(rows, frame - 1, top),
        r.is_one_to_one(rows.len(), cols),
        disjoint_ids(rows, apart),
        forall|i: int| 0 <= i < rows.len() ==> pool_row(#[trigger] rows[i], clear, frame as int),
    ensures
        ({
            let a = r.matches.filter_map(confirmed_by(rows, dets, updated, frame));
            let f = r.matches.filter_map(refound_by(rows, dets, updated, frame));
            let t = r.unmatched_tracks.filter_map(still_tracking(rows));
            &&& distinct_ids(a)
            &&& distinct_ids(f)
            &&& distinct_ids(t)
            &&& disjoint_ids(a, f)
            &&& disjoint_ids(a, t)
            &&& disjoint_ids(f, t)
            &&& disjoint_ids(a, apart)
            &&& disjoint_ids(f, apart)
            &&& disjoint_ids(t, apart)
            &&& disjoint_ids(a, clear)
            &&& disjoint_ids(t, clear)
            &&& forall|k: int| 0 <= k < a.len() ==> seen_in(frame, top)(#[trigger] a[k])
            &&& forall|k: int| 0 <= k < f.len() ==> seen_in(frame, top)(#[trigger] f[k])
            &&& forall|k: int|
                0 <= k < t.len() ==> left_in(frame, top, TrackState::Tracking)(#[trigger] t[k])
        }),
{
    let fa = confirmed_by(rows, dets, updated, frame);
    let ff = refound_by(rows, dets, updated, frame);
    let ft = still_tracking(rows);
    let rm = row_of_match();
    let ri = row_of_index();
    assert(draws(rows, r.matches, rm, fa));
    assert(draws(rows, r.matches, rm, ff));
    assert(draws(rows, r.unmatched_tracks, ri, ft));
    lemma_drawn(rows, r.matches, rm, fa);
    lemma_drawn(rows, r.matches, rm, ff);
    lemma_drawn(rows, r.unmatched_tracks, ri, ft);
    lemma_drawn_apart(rows, r.matches, rm, fa, r.matches, rm, ff);
    lemma_drawn_apart(rows, r.matches, rm, fa, r.unmatched_tracks, ri, ft);
    lemma_drawn_apart(rows, r.matches, rm, ff, r.unmatched_tracks, ri, ft);
    lemma_drawn_away(rows, r.matches, rm, fa, apart);
    lemma_drawn_away(rows, r.matches, rm, ff, apart);
    lemma_drawn_away(rows, r.unmatched_tracks, ri, ft, apart);
    assert forall|l: int, j: int|
        0 <= l < r.matches.len() && 0 <= j < clear.len() && fa(
            #[trigger] r.matches[l],
        ) is Some implies rows[rm(r.matches[l])].track_id != (#[trigger] clear[j]).track_id by {
        assert(pool_row(rows[r.matches[l].0 as int], clear, frame as int));
    }
    lemma_drawn_away(rows, r.matches, rm, fa, clear);
    assert forall|l: int, j: int|
        0 <= l < r.unmatched_tracks.len() && 0 <= j < clear.len() && ft(
            #[trigger] r.unmatched_tracks[l],
        ) is Some implies rows[ri(r.unmatched_tracks[l])].track_id != (
    #[trigger] clear[j]).track_id by {
        assert(pool_row(rows[r.unmatched_tracks[l] as int], clear, frame as int));
    }
    lemma_drawn_away(rows, r.unmatched_tracks, ri, ft, clear);
    assert forall|l: int| 0 <= l < r.matches.len() && fa(#[trigger] r.matches[l]) is Some implies (
    seen_in(frame, top))(fa(r.matches[l])->0) by {
        let p = rows[r.matches[l].0 as int];
        assert(live(p, frame - 1, top));
        assert(pool_row(p, clear, frame as int));
    }
    lemma_drawn_all(r.matches, fa, seen_in(frame, top));
    assert forall|l: int| 0 <= l < r.matches.len() && ff(#[trigger] r.matches[l]) is Some implies (
    seen_in(frame, top))(ff(r.matches[l])->0) by {
        let p = rows[r.matches[l].0 as int];
        assert(live(p, frame - 1, top));
    }
    lemma_drawn_all(r.matches, ff, seen_in(frame, top));
    assert forall|l: int|
        0 <= l < r.unmatched_tracks.len() && ft(#[trigger] r.unmatched_tracks[l]) is Some implies (
    left_in(frame, top, TrackState::Tracking))(ft(r.unmatched_tracks[l])->0) by {
        let p = rows[r.unmatched_tracks[l] as int];
        assert(live(p, frame - 1, top));
        assert(pool_row(p, clear, frame as int));
    }
    lemma_drawn_all(r.unmatched_tracks, ft, left_in(frame, top, TrackState::Tracking));
}

/// The first association keeps the state well formed.
pub proof fn lemma_first_step(v: TrackerView, r: Assignment, updated: Seq<Moments>)
    requires
        v.wf(),
        v.stage == FrameStage::FirstAssociation,
        r.is_one_to_one(v.strack_pool.len(), v.detections.len()),
    ensures
        v.first_step(r, updated).wf(),
{
    let n = v.first_step(r, updated);
    let pool = v.strack_pool;
    lemma_association(
        pool,
        v.detections,
        updated,
        r,
        v.detections.len(),
        v.frame_id,
        v.ids,
        v.unconfirmed,
        v.lost_stracks,
    );
    lemma_mapped(r.unmatched_detections, track_at(v.detections));
    assert(n.activated =~= r.matches.filter_map(
        confirmed_by(pool, v.detections, updated, v.frame_id),
    ));
    assert(n.refind =~= r.matches.filter_map(refound_by(pool, v.detections, updated, v.frame_id)));
    assert(n.in_frame());
    assert(n.updated_ok());
}

/// What the rows left over by an association give once they are marked
/// lost: they repeat no identifier and share none with the tracks updated or
/// found again, nor with `apart` or `clear`.
pub proof fn lemma_lost_rows(
    rows: Seq<STrack>,
    dets: Seq<STrack>,
    updated: Seq<Moments>,
    r: Assignment,
    cols: nat,
    frame: u32,
    top: u64,
    apart: Seq<STrack>,
    clear: Seq<STrack>,
)
    requires
        frame >= 1,
        distinct_ids(rows),
        all_live(rows, frame - 1, top),
        r.is_one_to_one(rows.len(), cols),
        disjoint_ids(rows, apart),
        forall|i: int| 0 <= i < rows.len() ==> pool_row(#[trigger] rows[i], clear, frame as int),
    ensures
        ({
            let a = r.matches.filter_map(confirmed_by(rows, dets, updated, frame));
            let f = r.matches.filter_map(refound_by(rows, dets, updated, frame));
            let l = r.unmatched_tracks.filter_map(lost_now(rows));
            &&& distinct_ids(l)
            &&& disjoint_ids(a, l)
            &&& disjoint_ids(f, l)
            &&& disjoint_ids(l, apart)
            &&& disjoint_ids(apart, l)
            &&& disjoint_ids(l, clear)
            &&& forall|k: int|
                0 <= k < l.len() ==> left_in(frame, top, TrackState::Lost)(#[trigger] l[k])
        }),
{
    let fa = confirmed_by(rows, dets, updated, frame);
    let ff = refound_by(rows, dets, updated, frame);
    let fl = lost_now(rows);
    let rm = row_of_match();
    let ri = row_of_index();
    assert(draws(rows, r.matches, rm, fa));
    assert(draws(rows, r.matches, rm, ff));
    assert(draws(rows, r.unmatched_tracks, ri, fl));
    lemma_drawn(rows, r.unmatched_tracks, ri, fl);
    lemma_drawn_apart(rows, r.matches, rm, fa, r.unmatched_tracks, ri, fl);
    lemma_drawn_apart(rows, r.matches, rm, ff, r.unmatched_tracks, ri, fl);
    lemma_drawn_away(rows, r.unmatched_tracks, ri, fl, apart);
    assert forall|l: int, j: int|
        0 <= l < r.unmatched_tracks.len() && 0 <= j < clear.len() && fl(
            #[trigger] r.unmatched_tracks[l],
        ) is Some implies rows[ri(r.unmatched_tracks[l])].track_id != (
    #[trigger] clear[j]).track_id by {
        assert(pool_row(rows[r.unmatched_tracks[l] as int], clear, frame as int));
    }
    lemma_drawn_away(rows, r.unmatched_tracks, ri, fl, clear);
    assert forall|l: int|
        0 <= l < r.unmatched_tracks.len() && fl(#[trigger] r.unmatched_tracks[l]) is Some implies (
    left_in(frame, top, TrackState::Lost))(fl(r.unmatched_tracks[l])->0) by {
        let p = rows[r.unmatched_tracks[l] as int];
        assert(live(p, frame - 1, top));
        assert(pool_row(p, clear, frame as int));
    }
    lemma_drawn_all(r.unmatched_tracks, fl, left_in(frame, top, TrackState::Lost));
}

/// Lists that share no identifier with a third share none with it together.
pub proof fn lemma_disjoint_concat(a: Seq<STrack>, b: Seq<STrack>, c: Seq<STrack>)
    requires
        disjoint_ids(a, c),
        disjoint_ids(b, c),
    ensures
        disjoint_ids(a + b, c),
        disjoint_ids(c, a + b),
{
    assert forall|i: int, j: int| 0 <= i < (a + b).len() && 0 <= j < c.len() implies (#[trigger] (a
        + b)[i]).track_id != (#[trigger] c[j]).track_id by {
        if i < a.len() {
            assert(a[i].track_id != c[j].track_id);
        } else {
            assert(b[i - a.len()].track_id != c[j].track_id);
        }
    }
}

pub proof fn lemma_disjoint_symmetric(a: Seq<STrack>, b: Seq<STrack>)
    requires
        disjoint_ids(a, b),
    ensures
        disjoint_ids(b, a),
{
}

/// The second association keeps the state well formed.
pub proof fn lemma_second_step(v: TrackerView, r: Assignment, updated: Seq<Moments>)
    requires
        v.wf(),
        v.stage == FrameStage::SecondAssociation,
        r.is_one_to_one(v.r_tracked.len(), v.detections_second.len()),
    ensures
        v.second_step(r, updated).wf(),
{
    let n = v.second_step(r, updated);
    let rows = v.r_tracked;
    let dets = v.detections_second;
    let cols = v.detections_second.len();
    let a = r.matches.filter_map(confirmed_by(rows, dets, updated, v.frame_id));
    let f = r.matches.filter_map(refound_by(rows, dets, updated, v.frame_id));
    let l = r.unmatched_tracks.filter_map(lost_now(rows));
    assert forall|i: int| 0 <= i < rows.len() implies pool_row(
        #[trigger] rows[i],
        v.lost_stracks,
        v.frame_id as int,
    ) by {
        assert forall|j: int| 0 <= j < v.lost_stracks.len() implies (
        #[trigger] v.lost_stracks[j]).track_id != rows[i].track_id by {}
    }
    lemma_disjoint_symmetric(v.activated, rows);
    lemma_disjoint_symmetric(v.refind, rows);
    lemma_association(rows, dets, updated, r, cols, v.frame_id, v.ids, v.unconfirmed, v.lost_stracks);
    lemma_association(rows, dets, updated, r, cols, v.frame_id, v.ids, v.activated, v.lost_stracks);
    lemma_association(rows, dets, updated, r, cols, v.frame_id, v.ids, v.refind, v.lost_stracks);
    lemma_lost_rows(rows, dets, updated, r, cols, v.frame_id, v.ids, v.unconfirmed, v.lost_stracks);
    lemma_lost_rows(rows, dets, updated, r, cols, v.frame_id, v.ids, v.activated, v.lost_stracks);
    lemma_lost_rows(rows, dets, updated, r, cols, v.frame_id, v.ids, v.refind, v.lost_stracks);
    assert(f.len() == 0) by {
        lemma_mapped(r.matches, refound_by(rows, dets, updated, v.frame_id));
    }
    assert(n.refind =~= v.refind);
    assert(n.newly_lost =~= l);
    assert(n.activated == v.activated + a);
    lemma_disjoint_symmetric(a, v.activated);
    lemma_distinct_concat(v.activated, a);
    lemma_disjoint_symmetric(a, v.refind);
    lemma_disjoint_concat(v.activated, a, v.refind);
    lemma_disjoint_concat(v.activated, a, v.unconfirmed);
    lemma_disjoint_concat(v.activated, a, v.lost_stracks);
    lemma_disjoint_concat(v.activated, a, l);
    assert(n.updated_ok());
    assert(n.in_frame());
}

/// The tracks that `started` makes carry the identifiers after `ids`, in
/// strictly increasing order, and were all seen in `frame`.
pub proof fn lemma_started(
    dets: Seq<STrack>,
    left: Seq<usize>,
    seeds: Seq<Moments>,
    thresh: Single,
    frame: u32,
    ids: u64,
)
    requires
        ids + left.len() <= u64::MAX,
    ensures
        ({
            let fresh = started(dets, left, seeds, thresh, frame, ids);
            &&& ids <= fresh.1 <= ids + left.len()
            &&& fresh.0.len() <= left.len()
            &&& forall|k: int|
                0 <= k < fresh.0.len() ==> ids < (#[trigger] fresh.0[k]).track_id <= fresh.1
            &&& forall|k1: int, k2: int|
                0 <= k1 < k2 < fresh.0.len() ==> (#[trigger] fresh.0[k1]).track_id < (
                #[trigger] fresh.0[k2]).track_id
            &&& distinct_ids(fresh.0)
            &&& forall|k: int|
                0 <= k < fresh.0.len() ==> seen_in(frame, fresh.1)(#[trigger] fresh.0[k])
        }),
    decreases left.len(),
{
    if left.len() > 0 {
        lemma_started(dets, left.drop_last(), seeds, thresh, frame, ids);
        let before = started(dets, left.drop_last(), seeds, thresh, frame, ids);
        let fresh = started(dets, left, seeds, thresh, frame, ids);
        assert forall|k: int| 0 <= k < fresh.0.len() implies seen_in(frame, fresh.1)(
            #[trigger] fresh.0[k],
        ) && ids < fresh.0[k].track_id <= fresh.1 by {
            if k < before.0.len() {
                assert(seen_in(frame, before.1)(before.0[k]));
            }
        }
        assert forall|k1: int, k2: int| 0 <= k1 < k2 < fresh.0.len() implies (
        #[trigger] fresh.0[k1]).track_id < (#[trigger] fresh.0[k2]).track_id by {
            if k2 < before.0.len() {
                assert(before.0[k1].track_id < before.0[k2].track_id);
            } else {
                assert(before.0[k1].track_id <= before.1);
            }
        }
    }
}

/// What the association of the unconfirmed tracks makes of the tracks
/// updated, found again and started: one list of tracks seen in this frame,
/// without a repeated identifier.
pub proof fn lemma_new_tracks(v: TrackerView, r: Assignment, updated: Seq<Moments>, seeds: Seq<Moments>)
    requires
        v.wf(),
        v.stage == FrameStage::UnconfirmedAssociation,
        r.is_one_to_one(v.unconfirmed.len(), v.detections_rem.len()),
    ensures
        ({
            let n = v.unconfirmed_step(r, updated, seeds);
            &&& v.ids <= n.ids
            &&& distinct_ids(n.tracked_stracks)
            &&& forall|k: int|
                0 <= k < n.tracked_stracks.len() ==> seen_in(n.frame_id, n.ids)(
                    #[trigger] n.tracked_stracks[k],
                )
        }),
{
    let n = v.unconfirmed_step(r, updated, seeds);
    let frame = v.frame_id;
    let fc = updated_by(v.unconfirmed, v.detections_rem, updated, frame);
    let c = r.matches.filter_map(fc);
    let fresh = started(
        v.detections_rem,
        r.unmatched_detections,
        seeds,
        v.new_track_thresh,
        frame,
        v.ids,
    );
    let rm = row_of_match();
    lemma_started(v.detections_rem, r.unmatched_detections, seeds, v.new_track_thresh, frame, v.ids);
    assert(draws(v.unconfirmed, r.matches, rm, fc));
    lemma_drawn(v.unconfirmed, r.matches, rm, fc);
    lemma_drawn_away(v.unconfirmed, r.matches, rm, fc, v.activated);
    lemma_drawn_away(v.unconfirmed, r.matches, rm, fc, v.refind);
    assert forall|l: int| 0 <= l < r.matches.len() && fc(#[trigger] r.matches[l]) is Some implies (
    seen_in(frame, v.ids))(fc(r.matches[l])->0) by {
        let p = v.unconfirmed[r.matches[l].0 as int];
        assert(live(p, frame - 1, v.ids));
    }
    lemma_drawn_all(r.matches, fc, seen_in(frame, v.ids));
    let ac = v.activated + c;
    lemma_distinct_concat(v.activated, c);
    lemma_disjoint_concat(v.activated, c, v.refind);
    assert forall|k: int| 0 <= k < ac.len() implies seen_in(frame, v.ids)(#[trigger] ac[k]) by {
        if k < v.activated.len() {
            assert(live(v.activated[k], frame as int, v.ids));
        } else {
            assert(seen_in(frame, v.ids)(c[k - v.activated.len()]));
        }
    }
    assert forall|i: int, j: int| 0 <= i < ac.len() && 0 <= j < fresh.0.len() implies (
    #[trigger] ac[i]).track_id != (#[trigger] fresh.0[j]).track_id by {
        assert(seen_in(frame, v.ids)(ac[i]));
        assert(v.ids < fresh.0[j].track_id);
    }
    assert forall|i: int, j: int| 0 <= i < fresh.0.len() && 0 <= j < v.refind.len() implies (
    #[trigger] fresh.0[i]).track_id != (#[trigger] v.refind[j]).track_id by {
        assert(live(v.refind[j], frame as int, v.ids));
        assert(v.ids < fresh.0[i].track_id);
    }
    let acs = ac + fresh.0;
    lemma_distinct_concat(ac, fresh.0);
    lemma_disjoint_concat(ac, fresh.0, v.refind);
    let all = acs + v.refind;
    lemma_distinct_concat(acs, v.refind);
    assert(n.activated == acs);
    assert forall|k: int| 0 <= k < all.len() implies seen_in(frame, n.ids)(#[trigger] all[k]) by {
        if k < ac.len() {
            assert(seen_in(frame, v.ids)(ac[k]));
        } else if k < acs.len() {
            assert(seen_in(frame, fresh.1)(fresh.0[k - ac.len()]));
        } else {
            assert(live(v.refind[k - acs.len()], frame as int, v.ids));
        }
    }
    lemma_kept(all, if_tracking(), Seq::empty());
    assert forall|l: int| 0 <= l < all.len() && if_tracking()(#[trigger] all[l]) is Some implies (
    seen_in(frame, n.ids))(if_tracking()(all[l])->0) by {}
    lemma_drawn_all(all, if_tracking(), seen_in(frame, n.ids));
}

/// What the sweep makes of the lost tracks: the tracks lost in this frame
/// and those that are not overdue, without a repeated identifier, and the
/// overdue ones among the removed.
pub proof fn lemma_swept(v: TrackerView, r: Assignment, updated: Seq<Moments>, seeds: Seq<Moments>)
    requires
        v.wf(),
        v.stage == FrameStage::UnconfirmedAssociation,
        r.is_one_to_one(v.unconfirmed.len(), v.detections_rem.len()),
    ensures
        ({
            let n = v.unconfirmed_step(r, updated, seeds);
            &&& distinct_ids(n.newly_lost)
            &&& all_live(n.newly_lost, n.frame_id as int, v.ids)
            &&& all_in(n.newly_lost, TrackState::Lost)
            &&& none_overdue(n.newly_lost, n.frame_id as int, n.max_time_lost)
            &&& all_in(n.removed_stracks, TrackState::Removed)
            &&& all_in(n.newly_removed, TrackState::Removed)
        }),
{
    let n = v.unconfirmed_step(r, updated, seeds);
    let frame = v.frame_id;
    let fs = if_surviving(frame, v.max_time_lost);
    let fe = if_expired(frame, v.max_time_lost);
    let fd = removed_now(v.unconfirmed);
    let sv = v.lost_stracks.filter_map(fs);
    let e = v.lost_stracks.filter_map(fe);
    let d = r.unmatched_tracks.filter_map(fd);
    lemma_disjoint_symmetric(v.newly_lost, v.lost_stracks);
    lemma_kept(v.lost_stracks, fs, v.newly_lost);
    lemma_distinct_concat(v.newly_lost, sv);
    let kept = |t: STrack|
        live(t, frame as int, v.ids) && t.state == TrackState::Lost && frame - t.frame_id
            <= v.max_time_lost;
    assert forall|l: int|
        0 <= l < v.lost_stracks.len() && fs(#[trigger] v.lost_stracks[l]) is Some implies kept(
        fs(v.lost_stracks[l])->0,
    ) by {
        assert(live(v.lost_stracks[l], frame - 1, v.ids));
    }
    lemma_drawn_all(v.lost_stracks, fs, kept);
    let gone = |t: STrack| t.state == TrackState::Removed;
    lemma_drawn_all(v.lost_stracks, fe, gone);
    lemma_drawn_all(r.unmatched_tracks, fd, gone);
    assert(n.newly_lost == v.newly_lost + sv);
    assert forall|k: int| 0 <= k < n.newly_lost.len() implies live(
        #[trigger] n.newly_lost[k],
        frame as int,
        v.ids,
    ) && n.newly_lost[k].state == TrackState::Lost && (frame - n.newly_lost[k].frame_id
        <= v.max_time_lost || n.newly_lost[k].frame_id + 1 == frame) by {
        if k < v.newly_lost.len() {
            assert(live(v.newly_lost[k], frame - 1, v.ids));
        } else {
            assert(kept(sv[k - v.newly_lost.len()]));
        }
    }
    assert(n.newly_removed =~= d + e);
    assert forall|k: int| 0 <= k < n.newly_removed.len() implies (
    #[trigger] n.newly_removed[k]).state == TrackState::Removed by {
        if k < d.len() {
            assert(gone(d[k]));
        } else {
            assert(gone(e[k - d.len()]));
        }
    }
}

/// The association of the unconfirmed tracks and the reconciliation keep the
/// state well formed.
pub proof fn lemma_unconfirmed_step(
    v: TrackerView,
    r: Assignment,
    updated: Seq<Moments>,
    seeds: Seq<Moments>,
)
    requires
        v.wf(),
        v.stage == FrameStage::UnconfirmedAssociation,
        r.is_one_to_one(v.unconfirmed.len(), v.detections_rem.len()),
    ensures
        v.unconfirmed_step(r, updated, seeds).wf(),
        v.ids <= v.unconfirmed_step(r, updated, seeds).ids,
{
    let n = v.unconfirmed_step(r, updated, seeds);
    lemma_new_tracks(v, r, updated, seeds);
    lemma_swept(v, r, updated, seeds);
    lemma_minus(n.newly_lost, n.tracked_stracks);
    lemma_disjoint_symmetric(n.lost_stracks, n.tracked_stracks);
    assert forall|k: int| 0 <= k < n.tracked_stracks.len() implies live(
        #[trigger] n.tracked_stracks[k],
        n.frame_id as int,
        n.ids,
    ) && n.tracked_stracks[k].state == TrackState::Tracking && n.tracked_stracks[k].frame_id
        == n.frame_id by {
        assert(seen_in(n.frame_id, n.ids)(n.tracked_stracks[k]));
    }
    assert forall|k: int| 0 <= k < n.lost_stracks.len() implies live(
        #[trigger] n.lost_stracks[k],
        n.frame_id as int,
        n.ids,
    ) && n.lost_stracks[k].state == TrackState::Lost && (n.frame_id - n.lost_stracks[k].frame_id
        <= n.max_time_lost || n.lost_stracks[k].frame_id + 1 == n.frame_id) by {
        assert(n.newly_lost.contains(n.lost_stracks[k]));
        let w = choose|w: int| 0 <= w < n.newly_lost.len() && n.newly_lost[w] == n.lost_stracks[k];
        assert(live(n.newly_lost[w], n.frame_id as int, v.ids));
    }
}

/// Removing the duplicates keeps the state well formed, and what a frame
/// returns are confirmed tracks in state `Tracking`, no identifier twice.
pub proof fn lemma_finished(v: TrackerView, ious: &CostMatrix)
    requires
        v.wf(),
        v.stage == FrameStage::Deduplication,
        v.tracked_stracks.len() <= usize::MAX,
        v.lost_stracks.len() <= usize::MAX,
    ensures
        v.finished(ious).wf(),
        distinct_ids(v.finished(ious).output()),
        forall|k: int|
            0 <= k < v.finished(ious).output().len() ==> (#[trigger] v.finished(
                ious,
            ).output()[k]).is_activated && v.finished(ious).output()[k].state
                == TrackState::Tracking,
{
    let n = v.finished(ious);
    lemma_without_duplicates(v.tracked_stracks, v.lost_stracks, ious);
    assert forall|k: int| 0 <= k < n.tracked_stracks.len() implies live(
        #[trigger] n.tracked_stracks[k],
        n.frame_id as int,
        n.ids,
    ) && n.tracked_stracks[k].state == TrackState::Tracking && n.tracked_stracks[k].frame_id
        == n.frame_id by {
        assert(v.tracked_stracks.contains(n.tracked_stracks[k]));
        let w = choose|w: int|
            0 <= w < v.tracked_stracks.len() && v.tracked_stracks[w] == n.tracked_stracks[k];
        assert(live(v.tracked_stracks[w], n.frame_id as int, n.ids));
    }
    assert forall|k: int| 0 <= k < n.lost_stracks.len() implies live(
        #[trigger] n.lost_stracks[k],
        n.frame_id as int,
        n.ids,
    ) && n.lost_stracks[k].state == TrackState::Lost && (n.frame_id - n.lost_stracks[k].frame_id
        <= n.max_time_lost || n.lost_stracks[k].frame_id + 1 == n.frame_id) by {
        assert(v.lost_stracks.contains(n.lost_stracks[k]));
        let w = choose|w: int| 0 <= w < v.lost_stracks.len() && v.lost_stracks[w] == n.lost_stracks[k];
        assert(live(v.lost_stracks[w], n.frame_id as int, n.ids));
    }
    lemma_kept(n.tracked_stracks, if_confirmed(), Seq::empty());
    let shown = |t: STrack| t.is_activated && t.state == TrackState::Tracking;
    lemma_drawn_all(n.tracked_stracks, if_confirmed(), shown);
    assert forall|k: int| 0 <= k < n.output().len() implies (#[trigger] n.output()[k]).is_activated
        && n.output()[k].state == TrackState::Tracking by {
        assert(shown(n.output()[k]));
    }
}

/// A frame, whatever its detections and whatever the filter, the costs and
/// the solver give, counts once: after it the frame counter is one more, and
/// the tracker waits for the next frame.
pub proof fn lemma_frame_counts_once(
    v: TrackerView,
    dets: Seq<Detection>,
    predicted: Seq<Moments>,
    first: (&CostMatrix, Option<Seq<usize>>, Seq<Moments>),
    second: (&CostMatrix, Option<Seq<usize>>, Seq<Moments>),
    third: (&CostMatrix, Option<Seq<usize>>, Seq<Moments>),
    seeds: Seq<Moments>,
    ious: &CostMatrix,
)
    requires
        v.frame_id < u32::MAX,
    ensures
        ({
            let end = v.begun(dets).predicted(predicted).after_first(
                first.0,
                first.1,
                first.2,
            ).after_second(
                second.0,
                second.1,
                second.2,
            ).after_unconfirmed(third.0, third.1, third.2, seeds).finished(ious);
            &&& end.frame_id == v.frame_id + 1
            &&& end.stage == FrameStage::Idle
            &&& end.config == v.config
            &&& end.max_time_lost == v.max_time_lost
        }),
{
}

/// Whether a cost matrix has a row for each row of the association that is
/// due, and a column for each of its columns.
pub open spec fn fits(v: TrackerView, cost: &CostMatrix) -> bool {
    &&& cost.nrows() == v.association_rows().len()
    &&& cost.ncols() == v.association_columns().len()
    &&& cost.nrows() <= usize::MAX
    &&& cost.ncols() <= usize::MAX
}

/// A whole frame, whatever its detections and whatever the filter, the costs
/// and the solver give: the tracker is well formed again and has counted the
/// frame; the tracks it returns are confirmed, in state `Tracking`, seen in
/// this frame, and no two share an identifier; and no lost track that it
/// keeps is overdue.
pub proof fn lemma_frame(
    v: TrackerView,
    dets: Seq<Detection>,
    predicted: Seq<Moments>,
    first: (&CostMatrix, Option<Seq<usize>>, Seq<Moments>),
    second: (&CostMatrix, Option<Seq<usize>>, Seq<Moments>),
    third: (&CostMatrix, Option<Seq<usize>>, Seq<Moments>),
    seeds: Seq<Moments>,
    ious: &CostMatrix,
)
    requires
        v.wf(),
        v.stage == FrameStage::Idle,
        v.frame_id < u32::MAX,
        v.ids + dets.len() <= u64::MAX,
        predicted.len() == v.begun(dets).strack_pool.len(),
        fits(v.begun(dets).predicted(predicted), first.0),
        fits(v.begun(dets).predicted(predicted).after_first(first.0, first.1, first.2), second.0),
        fits(
            v.begun(dets).predicted(predicted).after_first(first.0, first.1, first.2).after_second(
                second.0,
                second.1,
                second.2,
            ),
            third.0,
        ),
        v.begun(dets).predicted(predicted).after_first(first.0, first.1, first.2).after_second(
            second.0,
            second.1,
            second.2,
        ).after_unconfirmed(third.0, third.1, third.2, seeds).tracked_stracks.len() <= usize::MAX,
        v.begun(dets).predicted(predicted).after_first(first.0, first.1, first.2).after_second(
            second.0,
            second.1,
            second.2,
        ).after_unconfirmed(third.0, third.1, third.2, seeds).lost_stracks.len() <= usize::MAX,
    ensures
        ({
            let end = v.begun(dets).predicted(predicted).after_first(
                first.0,
                first.1,
                first.2,
            ).after_second(second.0, second.1, second.2).after_unconfirmed(
                third.0,
                third.1,
                third.2,
                seeds,
            ).finished(ious);
            &&& end.wf()
            &&& end.stage == FrameStage::Idle
            &&& end.frame_id == v.frame_id + 1
            &&& distinct_ids(end.output())
            &&& forall|k: int|
                0 <= k < end.output().len() ==> (#[trigger] end.output()[k]).is_activated
                    && end.output()[k].state == TrackState::Tracking && end.output()[k].frame_id
                    == end.frame_id
            &&& none_overdue(end.lost_stracks, end.frame_id as int, end.max_time_lost)
        }),
{
    let s0 = v.begun(dets);
    lemma_begun(v, dets);
    let s1 = s0.predicted(predicted);
    lemma_predicted(s0, predicted);
    let s2 = s1.after_first(first.0, first.1, first.2);
    lemma_assignment_is_one_to_one(first.0, s1.config.match_thresh, first.1);
    lemma_first_step(
        s1,
        spec_linear_assignment(first.0, s1.config.match_thresh, first.1),
        first.2,
    );
    let s3 = s2.after_second(second.0, second.1, second.2);
    lemma_assignment_is_one_to_one(
        second.0,
        Single { bits: SECOND_MATCH_BITS },
        second.1,
    );
    lemma_second_step(
        s2,
        spec_linear_assignment(
            second.0,
            Single { bits: SECOND_MATCH_BITS },
            second.1,
        ),
        second.2,
    );
    let s4 = s3.after_unconfirmed(third.0, third.1, third.2, seeds);
    lemma_assignment_is_one_to_one(
        third.0,
        Single { bits: UNCONFIRMED_MATCH_BITS },
        third.1,
    );
    lemma_unconfirmed_step(
        s3,
        spec_linear_assignment(
            third.0,
            Single { bits: UNCONFIRMED_MATCH_BITS },
            third.1,
        ),
        third.2,
        seeds,
    );
    let end = s4.finished(ious);
    lemma_finished(s4, ious);
    lemma_mapped(end.tracked_stracks, if_confirmed());
    assert forall|k: int| 0 <= k < end.output().len() implies (#[trigger] end.output()[k]).frame_id
        == end.frame_id by {
        let l = choose|l: int|
            0 <= l < end.tracked_stracks.len() && if_confirmed()(#[trigger] end.tracked_stracks[l])
                == Some(end.output()[k]);
    }
}

} // verus!

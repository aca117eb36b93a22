//! The tracker: configuration, working sets, and the frame as a sequence of
//! steps between which the caller runs the filter, the overlaps and the solver.

use vstd::prelude::*;
use crate::tracker::frame_state::{
    lemma_begun, lemma_finished, lemma_first_step, lemma_predicted, lemma_second_step,
    lemma_started, lemma_unconfirmed_step, live, none_overdue,
};
use crate::tracker::matching::{
    lemma_mapped, linear_assignment, solution_view, spec_linear_assignment, Assignment,
    AssignmentResult, CostMatrix, Detection,
};
use crate::tracker::moments::Moments;
use crate::tracker::single::Single;
use crate::tracker::strack::{STrack, TrackIdCounter};
use crate::tracker::track_sets::{
    copy_stracks, distinct_ids, joint, joint_stracks, minus, remove_duplicate_stracks,
    sub_stracks, without_duplicates,
};
use crate::tracker::track_state::TrackState;

verus! {

/// Bit pattern of the confidence 0.1 at or below which a detection is dropped.
pub const LOW_SCORE_BITS: u32 = 0x3dcc_cccd;

/// Bit pattern of the cost 0.5 up to which the second association accepts.
pub const SECOND_MATCH_BITS: u32 = 0x3f00_0000;

/// Bit pattern of the cost 0.7 up to which unconfirmed tracks are matched.
pub const UNCONFIRMED_MATCH_BITS: u32 = 0x3f33_3333;

/// Configuration of a tracker.
#[derive(Clone, Copy, Debug)]
pub struct TrackerConfig {
    /// Confidence from which a detection takes part in the first association.
    pub track_thresh: Single,
    /// Cost up to which the first association accepts a pair.
    pub match_thresh: Single,
    /// Frames that a lost track is kept for, at 30 frames a second.
    pub track_buffer: u32,
    /// Frames a second.
    pub frame_rate: Single,
}

impl Default for TrackerConfig {
    /// Thresholds 0.5 and 0.8, a buffer of 30 frames, 30 frames a second.
    fn default() -> (config: TrackerConfig)
        ensures
            config.track_thresh.bits == 0x3f00_0000,
            config.match_thresh.bits == 0x3f4c_cccd,
            config.track_buffer == 30,
            config.frame_rate.bits == 0x41f0_0000,
    {
        TrackerConfig {
            track_thresh: Single { bits: 0x3f00_0000 },
            match_thresh: Single { bits: 0x3f4c_cccd },
            track_buffer: 30,
            frame_rate: Single { bits: 0x41f0_0000 },
        }
    }
}

/// Why a configuration is refused.
#[derive(Clone, Copy, Debug, PartialEq, Eq, Structural)]
pub enum ConfigurationError {
    /// A threshold is infinite or not a number.
    NonFiniteThreshold,
    /// The frame rate is not above zero.
    NonPositiveFrameRate,
}

/// Which step of a frame the tracker waits for.
#[derive(Clone, Copy, Debug, PartialEq, Eq, Structural)]
pub enum FrameStage {
    /// Between frames.
    Idle,
    /// The frame has begun; the filter's predictions for the pool are due.
    Prediction,
    /// The first association, with the detections of high confidence, is due.
    FirstAssociation,
    /// The second association, with the detections of low confidence, is due.
    SecondAssociation,
    /// The association of the unconfirmed tracks is due.
    UnconfirmedAssociation,
    /// The sets are reconciled; the removal of duplicates is due.
    Deduplication,
}

/// The state of a tracker, as sequences.
pub struct TrackerView {
    pub stage: FrameStage,
    pub frame_id: u32,
    pub config: TrackerConfig,
    /// Confidence from which an unmatched detection starts a track.
    pub new_track_thresh: Single,
    /// Frames after which a lost track is removed.
    pub max_time_lost: u32,
    /// The identifier issued last.
    pub ids: u64,
    pub tracked_stracks: Seq<STrack>,
    pub lost_stracks: Seq<STrack>,
    pub removed_stracks: Seq<STrack>,
    /// This frame's detections of high confidence.
    pub detections: Seq<STrack>,
    /// This frame's detections of low confidence.
    pub detections_second: Seq<STrack>,
    /// Confirmed and lost tracks, the rows of the first association.
    pub strack_pool: Seq<STrack>,
    /// Tracks that wait for their second frame.
    pub unconfirmed: Seq<STrack>,
    /// The rows of the second association.
    pub r_tracked: Seq<STrack>,
    /// The columns of the association of the unconfirmed tracks.
    pub detections_rem: Seq<STrack>,
    pub activated: Seq<STrack>,
    pub refind: Seq<STrack>,
    pub newly_lost: Seq<STrack>,
    pub newly_removed: Seq<STrack>,
}

/// The record of a detection whose confidence is at least `thresh`.
pub open spec fn high_track(thresh: Single) -> spec_fn(Detection) -> Option<STrack> {
    |d: Detection|
        if d.score.spec_ge(thresh) {
            Some(STrack::spec_new(d.bbox, d.score))
        } else {
            None
        }
}

/// The record of a detection whose confidence is below `thresh` and above 0.1.
pub open spec fn low_track(thresh: Single) -> spec_fn(Detection) -> Option<STrack> {
    |d: Detection|
        if !d.score.spec_ge(thresh) && d.score.spec_gt(Single { bits: LOW_SCORE_BITS }) {
            Some(STrack::spec_new(d.bbox, d.score))
        } else {
            None
        }
}

pub open spec fn if_unconfirmed() -> spec_fn(STrack) -> Option<STrack> {
    |t: STrack|
        if !t.is_activated {
            Some(t)
        } else {
            None
        }
}

pub open spec fn if_confirmed() -> spec_fn(STrack) -> Option<STrack> {
    |t: STrack|
        if t.is_activated {
            Some(t)
        } else {
            None
        }
}

pub open spec fn if_tracking() -> spec_fn(STrack) -> Option<STrack> {
    |t: STrack|
        if t.state == TrackState::Tracking {
            Some(t)
        } else {
            None
        }
}

/// What the filter is to predict from, for each track.
pub open spec fn prediction_inputs(tracks: Seq<STrack>) -> Seq<Option<Moments>> {
    Seq::new(tracks.len(), |i: int| tracks[i].spec_prediction_input())
}

/// Each track with the estimate that the filter predicted for it.
pub open spec fn predicted_tracks(tracks: Seq<STrack>, predicted: Seq<Moments>) -> Seq<STrack> {
    Seq::new(tracks.len(), |i: int| tracks[i].with_moments(predicted[i]))
}

/// The track of a matched row after its update, where the row is in state
/// `Tracking`.
pub open spec fn confirmed_by(
    tracks: Seq<STrack>,
    dets: Seq<STrack>,
    updated: Seq<Moments>,
    frame: u32,
) -> spec_fn((usize, usize)) -> Option<STrack> {
    |m: (usize, usize)|
        if tracks[m.0 as int].state == TrackState::Tracking {
            Some(tracks[m.0 as int].updated(dets[m.1 as int].score, updated[m.0 as int], frame))
        } else {
            None
        }
}

/// The track of a matched row after it was found again, where the row is not
/// in state `Tracking`.
pub open spec fn refound_by(
    tracks: Seq<STrack>,
    dets: Seq<STrack>,
    updated: Seq<Moments>,
    frame: u32,
) -> spec_fn((usize, usize)) -> Option<STrack> {
    |m: (usize, usize)|
        if tracks[m.0 as int].state != TrackState::Tracking {
            Some(
                tracks[m.0 as int].re_activated(dets[m.1 as int].score, updated[m.0 as int], frame),
            )
        } else {
            None
        }
}

/// The track of a matched row after its update.
pub open spec fn updated_by(
    tracks: Seq<STrack>,
    dets: Seq<STrack>,
    updated: Seq<Moments>,
    frame: u32,
) -> spec_fn((usize, usize)) -> Option<STrack> {
    |m: (usize, usize)|
        Some(tracks[m.0 as int].updated(dets[m.1 as int].score, updated[m.0 as int], frame))
}

/// The track at an index, where it is in state `Tracking`.
pub open spec fn still_tracking(tracks: Seq<STrack>) -> spec_fn(usize) -> Option<STrack> {
    |i: usize|
        if tracks[i as int].state == TrackState::Tracking {
            Some(tracks[i as int])
        } else {
            None
        }
}

/// The track at an index.
pub open spec fn track_at(tracks: Seq<STrack>) -> spec_fn(usize) -> Option<STrack> {
    |i: usize| Some(tracks[i as int])
}

/// The track at an index marked lost, unless it is lost already.
pub open spec fn lost_now(tracks: Seq<STrack>) -> spec_fn(usize) -> Option<STrack> {
    |i: usize|
        if tracks[i as int].state != TrackState::Lost {
            Some(tracks[i as int].marked_lost())
        } else {
            None
        }
}

/// The track at an index marked removed.
pub open spec fn removed_now(tracks: Seq<STrack>) -> spec_fn(usize) -> Option<STrack> {
    |i: usize| Some(tracks[i as int].marked_removed())
}

/// A lost track marked removed, where it was last seen more than
/// `max_time_lost` frames before `frame`.
pub open spec fn if_expired(frame: u32, max_time_lost: u32) -> spec_fn(STrack) -> Option<STrack> {
    |t: STrack|
        if frame - t.frame_id > max_time_lost {
            Some(t.marked_removed())
        } else {
            None
        }
}

/// A lost track, where it was last seen at most `max_time_lost` frames before
/// `frame`.
pub open spec fn if_surviving(frame: u32, max_time_lost: u32) -> spec_fn(STrack) -> Option<STrack> {
    |t: STrack|
        if frame - t.frame_id > max_time_lost {
            None
        } else {
            Some(t)
        }
}

/// The tracks started from the detections `dets[left[k]]`, in order, and the
/// identifier issued last: each detection whose confidence is not below
/// `thresh` is activated under the next identifier after `ids`, with
/// `seeds[left[k]]` as its first estimate.
pub open spec fn started(
    dets: Seq<STrack>,
    left: Seq<usize>,
    seeds: Seq<Moments>,
    thresh: Single,
    frame: u32,
    ids: u64,
) -> (Seq<STrack>, u64)
    decreases left.len(),
{
    if left.len() == 0 {
        (Seq::empty(), ids)
    } else {
        let (before, last) = started(dets, left.drop_last(), seeds, thresh, frame, ids);
        let j = left.last() as int;
        if dets[j].score.spec_lt(thresh) {
            (before, last)
        } else {
            let id = (last + 1) as u64;
            (before.push(dets[j].activated(seeds[j], frame, id)), id)
        }
    }
}

impl TrackerView {
    /// The state after a frame has begun with the detections `dets`: the
    /// frame counter is one more; the detections are split by confidence;
    /// the tracks are split into unconfirmed ones and the pool of confirmed
    /// and lost ones.
    pub open spec fn begun(self, dets: Seq<Detection>) -> TrackerView {
        TrackerView {
            stage: FrameStage::Prediction,
            frame_id: (self.frame_id + 1) as u32,
            tracked_stracks: Seq::empty(),
            detections: dets.filter_map(high_track(self.config.track_thresh)),
            detections_second: dets.filter_map(low_track(self.config.track_thresh)),
            unconfirmed: self.tracked_stracks.filter_map(if_unconfirmed()),
            strack_pool: joint(self.tracked_stracks.filter_map(if_confirmed()), self.lost_stracks),
            r_tracked: Seq::empty(),
            detections_rem: Seq::empty(),
            activated: Seq::empty(),
            refind: Seq::empty(),
            newly_lost: Seq::empty(),
            newly_removed: Seq::empty(),
            ..self
        }
    }

    /// The state after the filter's predictions are stored: each track of
    /// the pool holds the estimate predicted for it.
    pub open spec fn predicted(self, predicted: Seq<Moments>) -> TrackerView {
        TrackerView {
            stage: FrameStage::FirstAssociation,
            strack_pool: predicted_tracks(self.strack_pool, predicted),
            ..self
        }
    }

    /// The state after the first association: each matched track is updated,
    /// or found again where it was lost; the unmatched tracks that are not
    /// lost and the unmatched detections wait for the next steps.
    pub open spec fn after_first(
        self,
        cost: &CostMatrix,
        solution: Option<Seq<usize>>,
        updated: Seq<Moments>,
    ) -> TrackerView {
        self.first_step(spec_linear_assignment(cost, self.config.match_thresh, solution), updated)
    }

    /// The state after the first association, given its matches and
    /// leftovers.
    pub open spec fn first_step(self, r: Assignment, updated: Seq<Moments>) -> TrackerView {
        let pool = self.strack_pool;
        TrackerView {
            stage: FrameStage::SecondAssociation,
            activated: self.activated + r.matches.filter_map(
                confirmed_by(pool, self.detections, updated, self.frame_id),
            ),
            refind: self.refind + r.matches.filter_map(
                refound_by(pool, self.detections, updated, self.frame_id),
            ),
            r_tracked: r.unmatched_tracks.filter_map(still_tracking(pool)),
            detections_rem: r.unmatched_detections.filter_map(track_at(self.detections)),
            ..self
        }
    }

    /// The state after the second association, which accepts costs up to 0.5:
    /// each matched track is updated; each unmatched one is marked lost.
    pub open spec fn after_second(
        self,
        cost: &CostMatrix,
        solution: Option<Seq<usize>>,
        updated: Seq<Moments>,
    ) -> TrackerView {
        self.second_step(
            spec_linear_assignment(cost, Single { bits: SECOND_MATCH_BITS }, solution),
            updated,
        )
    }

    /// The state after the second association, given its matches and
    /// leftovers.
    pub open spec fn second_step(self, r: Assignment, updated: Seq<Moments>) -> TrackerView {
        TrackerView {
            stage: FrameStage::UnconfirmedAssociation,
            activated: self.activated + r.matches.filter_map(
                confirmed_by(self.r_tracked, self.detections_second, updated, self.frame_id),
            ),
            refind: self.refind + r.matches.filter_map(
                refound_by(self.r_tracked, self.detections_second, updated, self.frame_id),
            ),
            newly_lost: self.newly_lost + r.unmatched_tracks.filter_map(lost_now(self.r_tracked)),
            ..self
        }
    }

    /// The state after the association of the unconfirmed tracks, which
    /// accepts costs up to 0.7, and the reconciliation of the sets: each
    /// matched unconfirmed track is updated, each unmatched one removed;
    /// each detection still unmatched starts a track where its confidence
    /// allows; the lost tracks that are overdue are removed; the tracks
    /// updated, found again or started make the new set of tracks, and what
    /// is lost and not among them the new set of lost tracks.
    pub open spec fn after_unconfirmed(
        self,
        cost: &CostMatrix,
        solution: Option<Seq<usize>>,
        updated: Seq<Moments>,
        seeds: Seq<Moments>,
    ) -> TrackerView {
        self.unconfirmed_step(
            spec_linear_assignment(cost, Single { bits: UNCONFIRMED_MATCH_BITS }, solution),
            updated,
            seeds,
        )
    }

    /// The state after the association of the unconfirmed tracks and the
    /// reconciliation, given the matches and leftovers.
    pub open spec fn unconfirmed_step(
        self,
        r: Assignment,
        updated: Seq<Moments>,
        seeds: Seq<Moments>,
    ) -> TrackerView {
        let confirmed = r.matches.filter_map(
            updated_by(self.unconfirmed, self.detections_rem, updated, self.frame_id),
        );
        let dropped = r.unmatched_tracks.filter_map(removed_now(self.unconfirmed));
        let fresh = started(
            self.detections_rem,
            r.unmatched_detections,
            seeds,
            self.new_track_thresh,
            self.frame_id,
            self.ids,
        );
        let activated = self.activated + confirmed + fresh.0;
        let expired = self.lost_stracks.filter_map(if_expired(self.frame_id, self.max_time_lost));
        let lost_all = self.newly_lost + self.lost_stracks.filter_map(
            if_surviving(self.frame_id, self.max_time_lost),
        );
        let removed_all = self.newly_removed + dropped + expired;
        let tracked_stracks = (activated + self.refind).filter_map(if_tracking());
        TrackerView {
            stage: FrameStage::Deduplication,
            ids: fresh.1,
            activated,
            newly_lost: lost_all,
            newly_removed: removed_all,
            tracked_stracks,
            lost_stracks: minus(lost_all, tracked_stracks),
            removed_stracks: self.removed_stracks + removed_all,
            ..self
        }
    }

    /// The state after the duplicates between the tracks and the lost tracks
    /// are removed, which ends the frame.
    pub open spec fn finished(self, ious: &CostMatrix) -> TrackerView {
        let kept = without_duplicates(self.tracked_stracks, self.lost_stracks, ious);
        TrackerView {
            stage: FrameStage::Idle,
            tracked_stracks: kept.0,
            lost_stracks: kept.1,
            detections: Seq::empty(),
            detections_second: Seq::empty(),
            strack_pool: Seq::empty(),
            unconfirmed: Seq::empty(),
            r_tracked: Seq::empty(),
            detections_rem: Seq::empty(),
            activated: Seq::empty(),
            refind: Seq::empty(),
            newly_lost: Seq::empty(),
            newly_removed: Seq::empty(),
            ..self
        }
    }

    /// The rows of the association that is due: the pool in the first one,
    /// what is left of it and not lost in the second, the unconfirmed tracks
    /// in the third.
    pub open spec fn association_rows(self) -> Seq<STrack> {
        match self.stage {
            FrameStage::SecondAssociation => self.r_tracked,
            FrameStage::UnconfirmedAssociation => self.unconfirmed,
            _ => self.strack_pool,
        }
    }

    /// The columns of the association that is due: the detections of high
    /// confidence in the first one, those of low confidence in the second,
    /// and in the third the detections of high confidence that the first
    /// left unmatched.
    pub open spec fn association_columns(self) -> Seq<STrack> {
        match self.stage {
            FrameStage::SecondAssociation => self.detections_second,
            FrameStage::UnconfirmedAssociation => self.detections_rem,
            _ => self.detections,
        }
    }

    /// Whether the costs of the association that is due are fused with the
    /// confidence of the detections: not in the second association, whose
    /// detections are of low confidence by choice.
    pub open spec fn association_fuses_scores(self) -> bool {
        self.stage != FrameStage::SecondAssociation
    }

    /// The cost up to which the association that is due accepts a pair: 0.5
    /// in the second association, 0.7 for the unconfirmed tracks, and the
    /// configured threshold else.
    pub open spec fn association_thresh(self) -> Single {
        match self.stage {
            FrameStage::SecondAssociation => Single { bits: SECOND_MATCH_BITS },
            FrameStage::UnconfirmedAssociation => Single { bits: UNCONFIRMED_MATCH_BITS },
            _ => self.config.match_thresh,
        }
    }

    /// What a frame returns: the confirmed tracks.
    pub open spec fn output(self) -> Seq<STrack> {
        self.tracked_stracks.filter_map(if_confirmed())
    }
}

impl TrackerView {
    /// The state of a tracker that has seen no frame.
    pub open spec fn fresh(
        config: TrackerConfig,
        new_track_thresh: Single,
        max_time_lost: u32,
        ids: u64,
    ) -> TrackerView {
        TrackerView {
            stage: FrameStage::Idle,
            frame_id: 0,
            config,
            new_track_thresh,
            max_time_lost,
            ids,
            tracked_stracks: Seq::empty(),
            lost_stracks: Seq::empty(),
            removed_stracks: Seq::empty(),
            detections: Seq::empty(),
            detections_second: Seq::empty(),
            strack_pool: Seq::empty(),
            unconfirmed: Seq::empty(),
            r_tracked: Seq::empty(),
            detections_rem: Seq::empty(),
            activated: Seq::empty(),
            refind: Seq::empty(),
            newly_lost: Seq::empty(),
            newly_removed: Seq::empty(),
        }
    }
}

/// Whether the thresholds of a configuration are finite.
pub open spec fn thresholds_finite(config: TrackerConfig, new_track_thresh: Single) -> bool {
    config.track_thresh.spec_is_finite() && config.match_thresh.spec_is_finite()
        && new_track_thresh.spec_is_finite()
}

/// Whether the frame rate of a configuration is above zero.
pub open spec fn frame_rate_positive(config: TrackerConfig) -> bool {
    config.frame_rate.spec_gt(Single { bits: 0 })
}

/// A ByteTrack tracker.
///
/// A frame is processed in six steps, each a method: `begin_frame`,
/// `store_predictions`, `first_association`, `second_association`,
/// `unconfirmed_association` and `finish_frame`. Between two steps the caller
/// runs the motion filter, computes the costs of the next association from
/// the current boxes of its rows and columns, and solves the assignment;
/// `next_matches` tells for which pairs the filter's update is wanted.
pub struct BYTETracker {
    tracked_stracks: Vec<STrack>,
    lost_stracks: Vec<STrack>,
    removed_stracks: Vec<STrack>,
    frame_id: u32,
    config: TrackerConfig,
    new_track_thresh: Single,
    max_time_lost: u32,
    ids: TrackIdCounter,
    stage: FrameStage,
    detections: Vec<STrack>,
    detections_second: Vec<STrack>,
    strack_pool: Vec<STrack>,
    unconfirmed: Vec<STrack>,
    r_tracked_stracks: Vec<STrack>,
    detections_rem: Vec<STrack>,
    activated_stracks: Vec<STrack>,
    refind_stracks: Vec<STrack>,
    newly_lost: Vec<STrack>,
    newly_removed: Vec<STrack>,
}

impl View for BYTETracker {
    type V = TrackerView;

    closed spec fn view(&self) -> TrackerView {
        TrackerView {
            stage: self.stage,
            frame_id: self.frame_id,
            config: self.config,
            new_track_thresh: self.new_track_thresh,
            max_time_lost: self.max_time_lost,
            ids: self.ids@,
            tracked_stracks: self.tracked_stracks@,
            lost_stracks: self.lost_stracks@,
            removed_stracks: self.removed_stracks@,
            detections: self.detections@,
            detections_second: self.detections_second@,
            strack_pool: self.strack_pool@,
            unconfirmed: self.unconfirmed@,
            r_tracked: self.r_tracked_stracks@,
            detections_rem: self.detections_rem@,
            activated: self.activated_stracks@,
            refind: self.refind_stracks@,
            newly_lost: self.newly_lost@,
            newly_removed: self.newly_removed@,
        }
    }
}

impl BYTETracker {
    /// Makes a tracker that has seen no frame.
    ///
    /// `new_track_thresh` is the confidence from which an unmatched detection
    /// starts a track, `track_thresh + 0.1`, and `max_time_lost` the number
    /// of frames after which a lost track is removed, the whole part of
    /// `frame_rate / 30 * track_buffer`: the caller computes both. `ids`
    /// issues the identifiers of the tracks.
    ///
    /// A configuration with a threshold that is not finite, or a frame rate
    /// that is not above zero, is refused.
    pub fn new(
        config: TrackerConfig,
        new_track_thresh: Single,
        max_time_lost: u32,
        ids: TrackIdCounter,
    ) -> (made: Result<BYTETracker, ConfigurationError>)
        ensures
            match made {
                Ok(tracker) => {
                    &&& thresholds_finite(config, new_track_thresh)
                    &&& frame_rate_positive(config)
                    &&& tracker@ == TrackerView::fresh(config, new_track_thresh, max_time_lost, ids@)
                    &&& tracker@.wf()
                },
                Err(ConfigurationError::NonFiniteThreshold) => !thresholds_finite(
                    config,
                    new_track_thresh,
                ),
                Err(ConfigurationError::NonPositiveFrameRate) => thresholds_finite(
                    config,
                    new_track_thresh,
                ) && !frame_rate_positive(config),
            },
    {
        if !config.track_thresh.is_finite() || !config.match_thresh.is_finite()
            || !new_track_thresh.is_finite() {
            return Err(ConfigurationError::NonFiniteThreshold);
        }
        if !config.frame_rate.gt(Single { bits: 0 }) {
            return Err(ConfigurationError::NonPositiveFrameRate);
        }
        Ok(
            BYTETracker {
                tracked_stracks: Vec::new(),
                lost_stracks: Vec::new(),
                removed_stracks: Vec::new(),
                frame_id: 0,
                config,
                new_track_thresh,
                max_time_lost,
                ids,
                stage: FrameStage::Idle,
                detections: Vec::new(),
                detections_second: Vec::new(),
                strack_pool: Vec::new(),
                unconfirmed: Vec::new(),
                r_tracked_stracks: Vec::new(),
                detections_rem: Vec::new(),
                activated_stracks: Vec::new(),
                refind_stracks: Vec::new(),
                newly_lost: Vec::new(),
                newly_removed: Vec::new(),
            },
        )
    }

    /// Which step is due.
    pub fn stage(&self) -> (stage: FrameStage)
        ensures
            stage == self@.stage,
    {
        self.stage
    }

    /// Number of frames begun so far.
    pub fn frame_id(&self) -> (frame: u32)
        ensures
            frame == self@.frame_id,
    {
        self.frame_id
    }

    /// The identifier issued last.
    pub fn last_track_id(&self) -> (id: u64)
        ensures
            id == self@.ids,
    {
        self.ids.last()
    }

    /// Frames after which a lost track is removed.
    pub fn max_time_lost(&self) -> (frames: u32)
        ensures
            frames == self@.max_time_lost,
    {
        self.max_time_lost
    }

    pub fn config(&self) -> (config: &TrackerConfig)
        ensures
            *config == self@.config,
    {
        &self.config
    }

    /// The tracks seen in the last frame.
    pub fn tracked_stracks(&self) -> (tracks: &Vec<STrack>)
        ensures
            tracks@ == self@.tracked_stracks,
    {
        &self.tracked_stracks
    }

    /// The tracks that are lost for the moment.
    pub fn lost_stracks(&self) -> (tracks: &Vec<STrack>)
        ensures
            tracks@ == self@.lost_stracks,
    {
        &self.lost_stracks
    }

    /// The tracks removed so far.
    pub fn removed_stracks(&self) -> (tracks: &Vec<STrack>)
        ensures
            tracks@ == self@.removed_stracks,
    {
        &self.removed_stracks
    }

    /// The rows of the first association.
    pub fn strack_pool(&self) -> (tracks: &Vec<STrack>)
        ensures
            tracks@ == self@.strack_pool,
    {
        &self.strack_pool
    }

    /// This frame's detections of high confidence, the columns of the first
    /// association.
    pub fn detections(&self) -> (tracks: &Vec<STrack>)
        ensures
            tracks@ == self@.detections,
    {
        &self.detections
    }

    /// This frame's detections of low confidence, the columns of the second
    /// association.
    pub fn detections_second(&self) -> (tracks: &Vec<STrack>)
        ensures
            tracks@ == self@.detections_second,
    {
        &self.detections_second
    }

    /// The rows of the second association.
    pub fn r_tracked_stracks(&self) -> (tracks: &Vec<STrack>)
        ensures
            tracks@ == self@.r_tracked,
    {
        &self.r_tracked_stracks
    }

    /// The rows of the association of the unconfirmed tracks.
    pub fn unconfirmed(&self) -> (tracks: &Vec<STrack>)
        ensures
            tracks@ == self@.unconfirmed,
    {
        &self.unconfirmed
    }

    /// The columns of the association of the unconfirmed tracks.
    pub fn detections_rem(&self) -> (tracks: &Vec<STrack>)
        ensures
            tracks@ == self@.detections_rem,
    {
        &self.detections_rem
    }

    /// Between frames, lets the tracker issue its next identifier after
    /// `last`, where that is beyond the one it issued last. Trackers that
    /// hand the last identifier on to each other this way share no
    /// identifier.
    pub fn skip_ids_to(&mut self, last: u64)
        requires
            old(self)@.wf(),
            old(self)@.stage == FrameStage::Idle,
        ensures
            final(self)@ == (TrackerView {
                ids: if last > old(self)@.ids {
                    last
                } else {
                    old(self)@.ids
                },
                ..old(self)@
            }),
            final(self)@.wf(),
    {
        let ghost before = self@;
        if last > self.ids.last() {
            self.ids = TrackIdCounter::resuming_after(last);
        }
        proof {
            assert forall|i: int| 0 <= i < self@.tracked_stracks.len() implies live(
                #[trigger] self@.tracked_stracks[i],
                self@.frame_id as int,
                self@.ids,
            ) by {
                assert(live(
                    before.tracked_stracks[i],
                    before.frame_id as int,
                    before.ids,
                ));
            }
            assert forall|i: int| 0 <= i < self@.lost_stracks.len() implies live(
                #[trigger] self@.lost_stracks[i],
                self@.frame_id as int,
                self@.ids,
            ) by {
                assert(live(
                    before.lost_stracks[i],
                    before.frame_id as int,
                    before.ids,
                ));
            }
        }
    }

    /// The matches and leftovers that the association due next will accept
    /// for a cost matrix and what the solver returned for it padded. The
    /// caller runs the filter's update for these matches, and no others.
    pub fn next_matches(&self, cost_matrix: &CostMatrix, solution: &Option<Vec<usize>>) -> (result:
        AssignmentResult)
        ensures
            result@ == spec_linear_assignment(
                cost_matrix,
                self@.association_thresh(),
                solution_view(solution),
            ),
            result@.is_one_to_one(cost_matrix.nrows(), cost_matrix.ncols()),
    {
        let thresh = match self.stage {
            FrameStage::SecondAssociation => Single { bits: SECOND_MATCH_BITS },
            FrameStage::UnconfirmedAssociation => Single { bits: UNCONFIRMED_MATCH_BITS },
            _ => self.config.match_thresh,
        };
        linear_assignment(cost_matrix, thresh, solution)
    }

    /// Begins a frame: counts it, splits the detections by confidence, and
    /// splits the tracks into the unconfirmed ones and the pool of the
    /// confirmed and the lost ones. Returns, for each track of the pool, what
    /// the filter is to predict from.
    pub fn begin_frame(&mut self, detections: Vec<Detection>) -> (inputs: Vec<Option<Moments>>)
        requires
            old(self)@.wf(),
            old(self)@.stage == FrameStage::Idle,
            old(self)@.frame_id < u32::MAX,
            old(self)@.ids + detections@.len() <= u64::MAX,
        ensures
            final(self)@ == old(self)@.begun(detections@),
            final(self)@.wf(),
            final(self)@.frame_id == old(self)@.frame_id + 1,
            inputs@ == prediction_inputs(final(self)@.strack_pool),
            forall|i: int| 0 <= i < inputs@.len() ==> (#[trigger] inputs@[i]) is Some,
    {
        let ghost before = self@;
        let ghost dets = detections@;
        self.frame_id = self.frame_id + 1;
        let thresh = self.config.track_thresh;
        let floor = Single { bits: LOW_SCORE_BITS };
        let mut high: Vec<STrack> = Vec::new();
        let mut low: Vec<STrack> = Vec::new();
        let n: usize = detections.len();
        let mut i: usize = 0;
        while i < n
            invariant
                i <= n,
                n == detections@.len(),
                dets == detections@,
                floor.bits == LOW_SCORE_BITS,
                high@ == dets.take(i as int).filter_map(high_track(thresh)),
                low@ == dets.take(i as int).filter_map(low_track(thresh)),
            decreases n - i,
        {
            proof {
                dets.lemma_filter_map_take_succ(high_track(thresh), i as int);
                dets.lemma_filter_map_take_succ(low_track(thresh), i as int);
            }
            let det: Detection = detections[i];
            if det.score.ge(thresh) {
                high.push(STrack::new(det.bbox, det.score));
            } else if det.score.gt(floor) {
                low.push(STrack::new(det.bbox, det.score));
            }
            i = i + 1;
        }
        assert(dets.take(n as int) =~= dets);
        let mut unconfirmed: Vec<STrack> = Vec::new();
        let mut confirmed: Vec<STrack> = Vec::new();
        let m: usize = self.tracked_stracks.len();
        let mut k: usize = 0;
        while k < m
            invariant
                k <= m,
                m == self.tracked_stracks@.len(),
                self.tracked_stracks@ == before.tracked_stracks,
                unconfirmed@ == before.tracked_stracks.take(k as int).filter_map(if_unconfirmed()),
                confirmed@ == before.tracked_stracks.take(k as int).filter_map(if_confirmed()),
            decreases m - k,
        {
            proof {
                before.tracked_stracks.lemma_filter_map_take_succ(if_unconfirmed(), k as int);
                before.tracked_stracks.lemma_filter_map_take_succ(if_confirmed(), k as int);
            }
            let track: STrack = self.tracked_stracks[k];
            if !track.is_activated {
                unconfirmed.push(track);
            } else {
                confirmed.push(track);
            }
            k = k + 1;
        }
        assert(before.tracked_stracks.take(m as int) =~= before.tracked_stracks);
        let pool = joint_stracks(confirmed, &self.lost_stracks);
        let mut inputs: Vec<Option<Moments>> = Vec::new();
        let p: usize = pool.len();
        let mut j: usize = 0;
        while j < p
            invariant
                j <= p,
                p == pool@.len(),
                inputs@.len() == j,
                forall|x: int|
                    0 <= x < j ==> #[trigger] inputs@[x] == pool@[x].spec_prediction_input(),
            decreases p - j,
        {
            inputs.push(pool[j].prediction_input());
            j = j + 1;
        }
        assert(inputs@ =~= prediction_inputs(pool@));
        self.tracked_stracks = Vec::new();
        self.detections = high;
        self.detections_second = low;
        self.unconfirmed = unconfirmed;
        self.strack_pool = pool;
        self.r_tracked_stracks = Vec::new();
        self.detections_rem = Vec::new();
        self.activated_stracks = Vec::new();
        self.refind_stracks = Vec::new();
        self.newly_lost = Vec::new();
        self.newly_removed = Vec::new();
        self.stage = FrameStage::Prediction;
        proof {
            lemma_begun(before, dets);
            assert(self@.tracked_stracks =~= before.begun(dets).tracked_stracks);
            assert(self@ == before.begun(dets));
            assert forall|i: int| 0 <= i < inputs@.len() implies (#[trigger] inputs@[i]) is Some by {
                assert(live(self@.strack_pool[i], self@.frame_id - 1, self@.ids));
            }
        }
        inputs
    }
}

/// Updates each matched track that is in state `Tracking` and appends it to
/// `activated`; brings back each other matched track and appends it to
/// `refind`.
fn apply_matches(
    rows: &Vec<STrack>,
    dets: &Vec<STrack>,
    updated: &Vec<Moments>,
    matches: &Vec<(usize, usize)>,
    frame: u32,
    activated: &mut Vec<STrack>,
    refind: &mut Vec<STrack>,
)
    requires
        updated@.len() == rows@.len(),
        forall|k: int|
            0 <= k < matches@.len() ==> (#[trigger] matches@[k]).0 < rows@.len() && matches@[k].1
                < dets@.len(),
        forall|i: int| 0 <= i < rows@.len() ==> (#[trigger] rows@[i]).tracklet_len < u32::MAX,
    ensures
        final(activated)@ == old(activated)@ + matches@.filter_map(
            confirmed_by(rows@, dets@, updated@, frame),
        ),
        final(refind)@ == old(refind)@ + matches@.filter_map(
            refound_by(rows@, dets@, updated@, frame),
        ),
{
    let ghost fa = confirmed_by(rows@, dets@, updated@, frame);
    let ghost fr = refound_by(rows@, dets@, updated@, frame);
    let mut ids = TrackIdCounter::new();
    let n: usize = matches.len();
    let mut k: usize = 0;
    assert(matches@.take(0).filter_map(fa) =~= Seq::<STrack>::empty());
    assert(matches@.take(0).filter_map(fr) =~= Seq::<STrack>::empty());
    assert(activated@ =~= old(activated)@ + matches@.take(0).filter_map(fa));
    assert(refind@ =~= old(refind)@ + matches@.take(0).filter_map(fr));
    while k < n
        invariant
            k <= n,
            n == matches@.len(),
            updated@.len() == rows@.len(),
            fa == confirmed_by(rows@, dets@, updated@, frame),
            fr == refound_by(rows@, dets@, updated@, frame),
            forall|x: int|
                0 <= x < matches@.len() ==> (#[trigger] matches@[x]).0 < rows@.len()
                    && matches@[x].1 < dets@.len(),
            forall|i: int| 0 <= i < rows@.len() ==> (#[trigger] rows@[i]).tracklet_len < u32::MAX,
            activated@ == old(activated)@ + matches@.take(k as int).filter_map(fa),
            refind@ == old(refind)@ + matches@.take(k as int).filter_map(fr),
        decreases n - k,
    {
        proof {
            matches@.lemma_filter_map_take_succ(fa, k as int);
            matches@.lemma_filter_map_take_succ(fr, k as int);
        }
        let (itracked, idet) = matches[k];
        let mut track: STrack = rows[itracked];
        let det: STrack = dets[idet];
        if track.state == TrackState::Tracking {
            track.update(&det, updated[itracked], frame);
            activated.push(track);
        } else {
            track.re_activate(&det, updated[itracked], frame, false, &mut ids);
            refind.push(track);
        }
        k = k + 1;
        assert(activated@ =~= old(activated)@ + matches@.take(k as int).filter_map(fa));
        assert(refind@ =~= old(refind)@ + matches@.take(k as int).filter_map(fr));
    }
    assert(matches@.take(n as int) =~= matches@);
}

impl BYTETracker {
    /// Stores what the filter predicted for each track of the pool, from the
    /// inputs that `begin_frame` returned.
    pub fn store_predictions(&mut self, predicted: &Vec<Moments>)
        requires
            old(self)@.wf(),
            old(self)@.stage == FrameStage::Prediction,
            predicted@.len() == old(self)@.strack_pool.len(),
        ensures
            final(self)@ == old(self)@.predicted(predicted@),
            final(self)@.wf(),
    {
        let ghost before = self@;
        STrack::multi_predict(&mut self.strack_pool, predicted);
        self.stage = FrameStage::FirstAssociation;
        proof {
            assert(self.strack_pool@ =~= predicted_tracks(before.strack_pool, predicted@));
            lemma_predicted(before, predicted@);
        }
    }

    /// The rows of the association that is due.
    pub fn association_rows(&self) -> (rows: &Vec<STrack>)
        ensures
            rows@ == self@.association_rows(),
    {
        match self.stage {
            FrameStage::SecondAssociation => &self.r_tracked_stracks,
            FrameStage::UnconfirmedAssociation => &self.unconfirmed,
            _ => &self.strack_pool,
        }
    }

    /// The columns of the association that is due.
    pub fn association_columns(&self) -> (columns: &Vec<STrack>)
        ensures
            columns@ == self@.association_columns(),
    {
        match self.stage {
            FrameStage::SecondAssociation => &self.detections_second,
            FrameStage::UnconfirmedAssociation => &self.detections_rem,
            _ => &self.detections,
        }
    }

    /// Whether the costs of the association that is due are to be fused with
    /// the confidence of the detections.
    pub fn association_fuses_scores(&self) -> (fuses: bool)
        ensures
            fuses == self@.association_fuses_scores(),
    {
        match self.stage {
            FrameStage::SecondAssociation => false,
            _ => true,
        }
    }

    /// The first association, of the pool with the detections of high
    /// confidence. Costs up to the configured threshold are accepted.
    ///
    /// `cost_matrix` holds the cost of each track of the pool with each
    /// detection of high confidence, fused with the detection's confidence,
    /// and `solution` what the solver returned for the padded cost matrix.
    /// `updated` holds, for each matched track of the pool, the filter's
    /// estimate after an update with its detection.
    pub fn first_association(
        &mut self,
        cost_matrix: &CostMatrix,
        solution: &Option<Vec<usize>>,
        updated: &Vec<Moments>,
    )
        requires
            old(self)@.wf(),
            old(self)@.stage == FrameStage::FirstAssociation,
            updated@.len() == old(self)@.strack_pool.len(),
            cost_matrix.nrows() == old(self)@.strack_pool.len(),
            cost_matrix.ncols() == old(self)@.detections.len(),
        ensures
            final(self)@ == old(self)@.after_first(cost_matrix, solution_view(solution), updated@),
            final(self)@.wf(),
    {
        let ghost before = self@;
        let result = linear_assignment(cost_matrix, self.config.match_thresh, solution);
        proof {
            lemma_first_step(before, result@, updated@);
            assert forall|i: int| 0 <= i < self.strack_pool@.len() implies (
            #[trigger] self.strack_pool@[i]).tracklet_len < u32::MAX by {
                assert(live(
                    self.strack_pool@[i],
                    before.frame_id - 1,
                    before.ids,
                ));
            }
        }
        let mut activated: Vec<STrack> = Vec::new();
        let mut refind: Vec<STrack> = Vec::new();
        apply_matches(
            &self.strack_pool,
            &self.detections,
            updated,
            &result.matches,
            self.frame_id,
            &mut activated,
            &mut refind,
        );
        let ghost pool = self.strack_pool@;
        let mut r_tracked: Vec<STrack> = Vec::new();
        let nu: usize = result.unmatched_tracks.len();
        let mut u: usize = 0;
        while u < nu
            invariant
                u <= nu,
                nu == result.unmatched_tracks@.len(),
                pool == self.strack_pool@,
                forall|x: int|
                    0 <= x < nu ==> (#[trigger] result.unmatched_tracks@[x]) < pool.len(),
                r_tracked@ == result.unmatched_tracks@.take(u as int).filter_map(
                    still_tracking(pool),
                ),
            decreases nu - u,
        {
            proof {
                result.unmatched_tracks@.lemma_filter_map_take_succ(still_tracking(pool), u as int);
            }
            let idx: usize = result.unmatched_tracks[u];
            if self.strack_pool[idx].state == TrackState::Tracking {
                r_tracked.push(self.strack_pool[idx]);
            }
            u = u + 1;
        }
        assert(result.unmatched_tracks@.take(nu as int) =~= result.unmatched_tracks@);
        let ghost dets = self.detections@;
        let mut detections_rem: Vec<STrack> = Vec::new();
        let nd: usize = result.unmatched_detections.len();
        let mut d: usize = 0;
        while d < nd
            invariant
                d <= nd,
                nd == result.unmatched_detections@.len(),
                dets == self.detections@,
                forall|x: int|
                    0 <= x < nd ==> (#[trigger] result.unmatched_detections@[x]) < dets.len(),
                detections_rem@ == result.unmatched_detections@.take(d as int).filter_map(
                    track_at(dets),
                ),
            decreases nd - d,
        {
            proof {
                result.unmatched_detections@.lemma_filter_map_take_succ(track_at(dets), d as int);
            }
            let idx: usize = result.unmatched_detections[d];
            detections_rem.push(self.detections[idx]);
            d = d + 1;
        }
        assert(result.unmatched_detections@.take(nd as int) =~= result.unmatched_detections@);
        self.activated_stracks = activated;
        self.refind_stracks = refind;
        self.r_tracked_stracks = r_tracked;
        self.detections_rem = detections_rem;
        self.stage = FrameStage::SecondAssociation;
        proof {
            let after = before.first_step(result@, updated@);
            assert(self@.activated =~= after.activated);
            assert(self@.refind =~= after.refind);
            assert(self@ == after);
        }
    }

    /// The second association, of the tracks of the pool that are left and
    /// not lost with the detections of low confidence. Costs up to 0.5 are
    /// accepted.
    ///
    /// `cost_matrix` holds the cost of each row (`r_tracked_stracks`) with
    /// each detection of low confidence, not fused with the confidence, and
    /// `solution` what the solver returned for the padded cost matrix.
    /// `updated` holds, for each matched row, the filter's estimate after an
    /// update with its detection.
    pub fn second_association(
        &mut self,
        cost_matrix: &CostMatrix,
        solution: &Option<Vec<usize>>,
        updated: &Vec<Moments>,
    )
        requires
            old(self)@.wf(),
            old(self)@.stage == FrameStage::SecondAssociation,
            updated@.len() == old(self)@.r_tracked.len(),
            cost_matrix.nrows() == old(self)@.r_tracked.len(),
            cost_matrix.ncols() == old(self)@.detections_second.len(),
        ensures
            final(self)@ == old(self)@.after_second(
                cost_matrix,
                solution_view(solution),
                updated@,
            ),
            final(self)@.wf(),
    {
        let ghost before = self@;
        let result = linear_assignment(cost_matrix, Single { bits: SECOND_MATCH_BITS }, solution);
        proof {
            lemma_second_step(before, result@, updated@);
            assert forall|i: int| 0 <= i < self.r_tracked_stracks@.len() implies (
            #[trigger] self.r_tracked_stracks@[i]).tracklet_len < u32::MAX by {
                assert(live(
                    self.r_tracked_stracks@[i],
                    before.frame_id - 1,
                    before.ids,
                ));
            }
        }
        apply_matches(
            &self.r_tracked_stracks,
            &self.detections_second,
            updated,
            &result.matches,
            self.frame_id,
            &mut self.activated_stracks,
            &mut self.refind_stracks,
        );
        let ghost rows = self.r_tracked_stracks@;
        let ghost lost_before = self.newly_lost@;
        let nu: usize = result.unmatched_tracks.len();
        let mut u: usize = 0;
        assert(result.unmatched_tracks@.take(0).filter_map(lost_now(rows)) =~= Seq::<
            STrack,
        >::empty());
        assert(self.newly_lost@ =~= lost_before + result.unmatched_tracks@.take(0).filter_map(
            lost_now(rows),
        ));
        while u < nu
            invariant
                u <= nu,
                nu == result.unmatched_tracks@.len(),
                rows == self.r_tracked_stracks@,
                forall|x: int|
                    0 <= x < nu ==> (#[trigger] result.unmatched_tracks@[x]) < rows.len(),
                self.newly_lost@ == lost_before + result.unmatched_tracks@.take(
                    u as int,
                ).filter_map(lost_now(rows)),
                self.stage == before.stage,
                self.frame_id == before.frame_id,
                self.config == before.config,
                self.new_track_thresh == before.new_track_thresh,
                self.max_time_lost == before.max_time_lost,
                self.ids@ == before.ids,
                self.tracked_stracks@ == before.tracked_stracks,
                self.lost_stracks@ == before.lost_stracks,
                self.removed_stracks@ == before.removed_stracks,
                self.detections@ == before.detections,
                self.detections_second@ == before.detections_second,
                self.strack_pool@ == before.strack_pool,
                self.unconfirmed@ == before.unconfirmed,
                self.detections_rem@ == before.detections_rem,
                self.newly_removed@ == before.newly_removed,
                self.activated_stracks@ == before.second_step(result@, updated@).activated,
                self.refind_stracks@ == before.second_step(result@, updated@).refind,
            decreases nu - u,
        {
            proof {
                result.unmatched_tracks@.lemma_filter_map_take_succ(lost_now(rows), u as int);
            }
            let idx: usize = result.unmatched_tracks[u];
            let mut track: STrack = self.r_tracked_stracks[idx];
            if track.state != TrackState::Lost {
                track.mark_lost();
                self.newly_lost.push(track);
            }
            u = u + 1;
            assert(self.newly_lost@ =~= lost_before + result.unmatched_tracks@.take(
                u as int,
            ).filter_map(lost_now(rows)));
        }
        assert(result.unmatched_tracks@.take(nu as int) =~= result.unmatched_tracks@);
        self.stage = FrameStage::UnconfirmedAssociation;
        proof {
            assert(self@ == before.second_step(result@, updated@));
        }
    }
}

impl BYTETracker {
    /// The association of the unconfirmed tracks with the detections of high
    /// confidence that are left, and the reconciliation of the sets. Costs up
    /// to 0.7 are accepted.
    ///
    /// `cost_matrix` holds the cost of each unconfirmed track with each
    /// detection that is left (`detections_rem`), fused with the detection's
    /// confidence, and `solution` what the solver returned for the padded
    /// cost matrix. `updated` holds, for each matched unconfirmed track, the
    /// filter's estimate after an update with its detection, and `seeds`,
    /// for each detection that is left, the filter's first estimate for a
    /// track started from it.
    pub fn unconfirmed_association(
        &mut self,
        cost_matrix: &CostMatrix,
        solution: &Option<Vec<usize>>,
        updated: &Vec<Moments>,
        seeds: &Vec<Moments>,
    )
        requires
            old(self)@.wf(),
            old(self)@.stage == FrameStage::UnconfirmedAssociation,
            updated@.len() == old(self)@.unconfirmed.len(),
            seeds@.len() == old(self)@.detections_rem.len(),
            cost_matrix.nrows() == old(self)@.unconfirmed.len(),
            cost_matrix.ncols() == old(self)@.detections_rem.len(),
        ensures
            final(self)@ == old(self)@.after_unconfirmed(
                cost_matrix,
                solution_view(solution),
                updated@,
                seeds@,
            ),
            final(self)@.wf(),
            old(self)@.ids <= final(self)@.ids,
            none_overdue(
                final(self)@.lost_stracks,
                final(self)@.frame_id as int,
                final(self)@.max_time_lost,
            ),
    {
        let ghost before = self@;
        let result = linear_assignment(
            cost_matrix,
            Single { bits: UNCONFIRMED_MATCH_BITS },
            solution,
        );
        let ghost r = result@;
        let ghost after = before.unconfirmed_step(r, updated@, seeds@);
        let frame: u32 = self.frame_id;
        proof {
            lemma_unconfirmed_step(before, r, updated@, seeds@);
        }
        // Unconfirmed tracks that a detection confirms.
        let ghost rows = self.unconfirmed@;
        let ghost dets = self.detections_rem@;
        let ghost fc = updated_by(rows, dets, updated@, frame);
        let mut activated: Vec<STrack> = copy_stracks(&self.activated_stracks);
        let nm: usize = result.matches.len();
        let mut k: usize = 0;
        assert(r.matches.take(0).filter_map(fc) =~= Seq::<STrack>::empty());
        assert(activated@ =~= before.activated + r.matches.take(0).filter_map(fc));
        while k < nm
            invariant
                k <= nm,
                nm == result.matches@.len(),
                r == result@,
                rows == self.unconfirmed@,
                dets == self.detections_rem@,
                rows == before.unconfirmed,
                updated@.len() == rows.len(),
                fc == updated_by(rows, dets, updated@, frame),
                before.in_frame(),
                frame == before.frame_id,
                forall|x: int|
                    0 <= x < nm ==> (#[trigger] r.matches[x]).0 < rows.len() && r.matches[x].1
                        < dets.len(),
                activated@ == before.activated + r.matches.take(k as int).filter_map(fc),
            decreases nm - k,
        {
            proof {
                r.matches.lemma_filter_map_take_succ(fc, k as int);
            }
            let (itracked, idet) = result.matches[k];
            let mut track: STrack = self.unconfirmed[itracked];
            let det: STrack = self.detections_rem[idet];
            proof {
                assert(live(
                    rows[itracked as int],
                    before.frame_id - 1,
                    before.ids,
                ));
            }
            track.update(&det, updated[itracked], frame);
            activated.push(track);
            k = k + 1;
            assert(activated@ =~= before.activated + r.matches.take(k as int).filter_map(fc));
        }
        assert(r.matches.take(nm as int) =~= r.matches);
        let ghost confirmed = r.matches.filter_map(fc);
        // Unconfirmed tracks that no detection confirms.
        let mut removed_now_list: Vec<STrack> = copy_stracks(&self.newly_removed);
        let nu: usize = result.unmatched_tracks.len();
        let mut u: usize = 0;
        assert(r.unmatched_tracks.take(0).filter_map(removed_now(rows)) =~= Seq::<
            STrack,
        >::empty());
        assert(removed_now_list@ =~= before.newly_removed + r.unmatched_tracks.take(0).filter_map(
            removed_now(rows),
        ));
        while u < nu
            invariant
                u <= nu,
                nu == result.unmatched_tracks@.len(),
                r == result@,
                rows == self.unconfirmed@,
                forall|x: int| 0 <= x < nu ==> (#[trigger] r.unmatched_tracks[x]) < rows.len(),
                removed_now_list@ == before.newly_removed + r.unmatched_tracks.take(
                    u as int,
                ).filter_map(removed_now(rows)),
            decreases nu - u,
        {
            proof {
                r.unmatched_tracks.lemma_filter_map_take_succ(removed_now(rows), u as int);
            }
            let idx: usize = result.unmatched_tracks[u];
            let mut track: STrack = self.unconfirmed[idx];
            track.mark_removed();
            removed_now_list.push(track);
            u = u + 1;
            assert(removed_now_list@ =~= before.newly_removed + r.unmatched_tracks.take(
                u as int,
            ).filter_map(removed_now(rows)));
        }
        assert(r.unmatched_tracks.take(nu as int) =~= r.unmatched_tracks);
        let ghost dropped = r.unmatched_tracks.filter_map(removed_now(rows));
        // Detections that start a track.
        let thresh: Single = self.new_track_thresh;
        let mut ids: TrackIdCounter = self.ids;
        let ghost base = activated@;
        let nd: usize = result.unmatched_detections.len();
        let mut d: usize = 0;
        assert(r.unmatched_detections.take(0) =~= Seq::<usize>::empty());
        assert(activated@ =~= base + started(
            dets,
            r.unmatched_detections.take(0),
            seeds@,
            thresh,
            frame,
            before.ids,
        ).0);
        while d < nd
            invariant
                d <= nd,
                nd == result.unmatched_detections@.len(),
                r == result@,
                dets == self.detections_rem@,
                seeds@.len() == dets.len(),
                before.ids + nd <= u64::MAX,
                forall|x: int| 0 <= x < nd ==> (#[trigger] r.unmatched_detections[x]) < dets.len(),
                activated@ == base + started(
                    dets,
                    r.unmatched_detections.take(d as int),
                    seeds@,
                    thresh,
                    frame,
                    before.ids,
                ).0,
                ids@ == started(
                    dets,
                    r.unmatched_detections.take(d as int),
                    seeds@,
                    thresh,
                    frame,
                    before.ids,
                ).1,
            decreases nd - d,
        {
            proof {
                lemma_started(
                    dets,
                    r.unmatched_detections.take(d as int),
                    seeds@,
                    thresh,
                    frame,
                    before.ids,
                );
                assert(r.unmatched_detections.take(d + 1).drop_last()
                    =~= r.unmatched_detections.take(d as int));
            }
            let idx: usize = result.unmatched_detections[d];
            let mut track: STrack = self.detections_rem[idx];
            if !track.score.lt(thresh) {
                track.activate(seeds[idx], frame, &mut ids);
                activated.push(track);
            }
            d = d + 1;
            assert(activated@ =~= base + started(
                dets,
                r.unmatched_detections.take(d as int),
                seeds@,
                thresh,
                frame,
                before.ids,
            ).0);
        }
        assert(r.unmatched_detections.take(nd as int) =~= r.unmatched_detections);
        let ghost fresh = started(dets, r.unmatched_detections, seeds@, thresh, frame, before.ids);
        assert(activated@ =~= before.activated + confirmed + fresh.0);
        // Lost tracks that are overdue.
        let limit: u32 = self.max_time_lost;
        let ghost lost = self.lost_stracks@;
        let ghost removed_base = removed_now_list@;
        let mut lost_all: Vec<STrack> = copy_stracks(&self.newly_lost);
        let nl: usize = self.lost_stracks.len();
        let mut l: usize = 0;
        assert(lost.take(0).filter_map(if_expired(frame, limit)) =~= Seq::<STrack>::empty());
        assert(lost.take(0).filter_map(if_surviving(frame, limit)) =~= Seq::<STrack>::empty());
        assert(lost_all@ =~= before.newly_lost + lost.take(0).filter_map(
            if_surviving(frame, limit),
        ));
        assert(removed_now_list@ =~= removed_base + lost.take(0).filter_map(
            if_expired(frame, limit),
        ));
        while l < nl
            invariant
                l <= nl,
                nl == lost.len(),
                lost == self.lost_stracks@,
                lost == before.lost_stracks,
                before.in_frame(),
                frame == before.frame_id,
                lost_all@ == before.newly_lost + lost.take(l as int).filter_map(
                    if_surviving(frame, limit),
                ),
                removed_now_list@ == removed_base + lost.take(l as int).filter_map(
                    if_expired(frame, limit),
                ),
            decreases nl - l,
        {
            proof {
                lost.lemma_filter_map_take_succ(if_surviving(frame, limit), l as int);
                lost.lemma_filter_map_take_succ(if_expired(frame, limit), l as int);
                assert(live(
                    lost[l as int],
                    before.frame_id - 1,
                    before.ids,
                ));
            }
            let mut track: STrack = self.lost_stracks[l];
            if frame - track.end_frame() > limit {
                track.mark_removed();
                removed_now_list.push(track);
            } else {
                lost_all.push(track);
            }
            l = l + 1;
            assert(lost_all@ =~= before.newly_lost + lost.take(l as int).filter_map(
                if_surviving(frame, limit),
            ));
            assert(removed_now_list@ =~= removed_base + lost.take(l as int).filter_map(
                if_expired(frame, limit),
            ));
        }
        assert(lost.take(nl as int) =~= lost);
        assert(removed_now_list@ =~= before.newly_removed + dropped + lost.filter_map(
            if_expired(frame, limit),
        ));
        // The new sets.
        let mut all: Vec<STrack> = copy_stracks(&activated);
        let nr: usize = self.refind_stracks.len();
        let mut x: usize = 0;
        assert(self.refind_stracks@.take(0) =~= Seq::<STrack>::empty());
        assert(all@ =~= activated@ + self.refind_stracks@.take(0));
        while x < nr
            invariant
                x <= nr,
                nr == self.refind_stracks@.len(),
                all@ == activated@ + self.refind_stracks@.take(x as int),
            decreases nr - x,
        {
            all.push(self.refind_stracks[x]);
            x = x + 1;
            assert(all@ =~= activated@ + self.refind_stracks@.take(x as int));
        }
        assert(self.refind_stracks@.take(nr as int) =~= self.refind_stracks@);
        let mut kept: Vec<STrack> = Vec::new();
        let na: usize = all.len();
        let mut y: usize = 0;
        while y < na
            invariant
                y <= na,
                na == all@.len(),
                kept@ == all@.take(y as int).filter_map(if_tracking()),
            decreases na - y,
        {
            proof {
                all@.lemma_filter_map_take_succ(if_tracking(), y as int);
            }
            if all[y].state == TrackState::Tracking {
                kept.push(all[y]);
            }
            y = y + 1;
        }
        assert(all@.take(na as int) =~= all@);
        let lost_new = sub_stracks(copy_stracks(&lost_all), &kept);
        let ghost removed_before = self.removed_stracks@;
        let nx: usize = removed_now_list.len();
        let mut z: usize = 0;
        assert(removed_now_list@.take(0) =~= Seq::<STrack>::empty());
        assert(self.removed_stracks@ =~= removed_before + removed_now_list@.take(0));
        while z < nx
            invariant
                z <= nx,
                nx == removed_now_list@.len(),
                self.removed_stracks@ == removed_before + removed_now_list@.take(z as int),
                self.stage == before.stage,
                self.frame_id == before.frame_id,
                self.config == before.config,
                self.new_track_thresh == before.new_track_thresh,
                self.max_time_lost == before.max_time_lost,
                self.detections@ == before.detections,
                self.detections_second@ == before.detections_second,
                self.strack_pool@ == before.strack_pool,
                self.unconfirmed@ == before.unconfirmed,
                self.r_tracked_stracks@ == before.r_tracked,
                self.detections_rem@ == before.detections_rem,
                self.refind_stracks@ == before.refind,
            decreases nx - z,
        {
            self.removed_stracks.push(removed_now_list[z]);
            z = z + 1;
            assert(self.removed_stracks@ =~= removed_before + removed_now_list@.take(z as int));
        }
        assert(removed_now_list@.take(nx as int) =~= removed_now_list@);
        self.ids = ids;
        self.activated_stracks = activated;
        self.newly_lost = lost_all;
        self.newly_removed = removed_now_list;
        self.tracked_stracks = kept;
        self.lost_stracks = lost_new;
        self.stage = FrameStage::Deduplication;
        proof {
            assert(self@ == after);
        }
    }

    /// Ends the frame: removes the duplicates between the tracks and the lost
    /// tracks, and returns the confirmed tracks.
    ///
    /// `ious` holds the overlap of each track (`tracked_stracks`) with each
    /// lost track (`lost_stracks`), by their current boxes. It is not read
    /// where one of the two lists is empty.
    ///
    /// Every track returned is confirmed and in state `Tracking`, was seen
    /// in this frame, and no two of them share an identifier. No lost track
    /// that is kept was last seen more than `max_time_lost` frames ago,
    /// except that a track lost in this frame is kept also where
    /// `max_time_lost` is 0.
    pub fn finish_frame(&mut self, ious: &CostMatrix) -> (output: Vec<STrack>)
        requires
            old(self)@.wf(),
            old(self)@.stage == FrameStage::Deduplication,
            old(self)@.tracked_stracks.len() > 0 && old(self)@.lost_stracks.len() > 0
                ==> ious.nrows() == old(self)@.tracked_stracks.len() && ious.ncols() == old(
                self,
            )@.lost_stracks.len(),
        ensures
            final(self)@ == old(self)@.finished(ious),
            final(self)@.wf(),
            output@ == final(self)@.output(),
            distinct_ids(output@),
            forall|k: int|
                0 <= k < output@.len() ==> (#[trigger] output@[k]).is_activated && output@[k].state
                    == TrackState::Tracking && output@[k].frame_id == final(self)@.frame_id,
            none_overdue(
                final(self)@.lost_stracks,
                final(self)@.frame_id as int,
                final(self)@.max_time_lost,
            ),
    {
        let ghost before = self@;
        let rows: usize = self.tracked_stracks.len();
        let cols: usize = self.lost_stracks.len();
        proof {
            assert(before.tracked_stracks.len() == rows && before.lost_stracks.len() == cols);
            lemma_finished(before, ious);
            assert forall|i: int| 0 <= i < before.tracked_stracks.len() implies (
            #[trigger] before.tracked_stracks[i]).start_frame
                <= before.tracked_stracks[i].frame_id by {
                assert(live(
                    before.tracked_stracks[i],
                    before.frame_id as int,
                    before.ids,
                ));
            }
            assert forall|j: int| 0 <= j < before.lost_stracks.len() implies (
            #[trigger] before.lost_stracks[j]).start_frame <= before.lost_stracks[j].frame_id by {
                assert(live(
                    before.lost_stracks[j],
                    before.frame_id as int,
                    before.ids,
                ));
            }
        }
        let (kept, lost) = remove_duplicate_stracks(&self.tracked_stracks, &self.lost_stracks, ious);
        let mut output: Vec<STrack> = Vec::new();
        let n: usize = kept.len();
        let mut i: usize = 0;
        while i < n
            invariant
                i <= n,
                n == kept@.len(),
                output@ == kept@.take(i as int).filter_map(if_confirmed()),
            decreases n - i,
        {
            proof {
                kept@.lemma_filter_map_take_succ(if_confirmed(), i as int);
            }
            if kept[i].is_activated {
                output.push(kept[i]);
            }
            i = i + 1;
        }
        assert(kept@.take(n as int) =~= kept@);
        self.tracked_stracks = kept;
        self.lost_stracks = lost;
        self.detections = Vec::new();
        self.detections_second = Vec::new();
        self.strack_pool = Vec::new();
        self.unconfirmed = Vec::new();
        self.r_tracked_stracks = Vec::new();
        self.detections_rem = Vec::new();
        self.activated_stracks = Vec::new();
        self.refind_stracks = Vec::new();
        self.newly_lost = Vec::new();
        self.newly_removed = Vec::new();
        self.stage = FrameStage::Idle;
        proof {
            assert(self@ == before.finished(ious));
            lemma_mapped(self@.tracked_stracks, if_confirmed());
            assert forall|k: int| 0 <= k < output@.len() implies (#[trigger] output@[k]).frame_id
                == self@.frame_id by {
                let l = choose|l: int|
                    0 <= l < self@.tracked_stracks.len() && if_confirmed()(
                        #[trigger] self@.tracked_stracks[l],
                    ) == Some(output@[k]);
            }
        }
        output
    }
}

} // verus!

//! A single track, and the source of track identifiers.

use vstd::prelude::*;
use crate::tracker::moments::{Mean, Moments};
use crate::tracker::rect::Rect;
use crate::tracker::single::Single;
use crate::tracker::track_state::TrackState;

verus! {

/// Source of track identifiers: each one it issues is one more than the last.
#[derive(Clone, Copy, Debug)]
pub struct TrackIdCounter {
    last: u64,
}

impl View for TrackIdCounter {
    type V = u64;

    /// The identifier issued last, 0 before the first.
    closed spec fn view(&self) -> u64 {
        self.last
    }
}

impl TrackIdCounter {
    /// A counter that has issued nothing: its first identifier is 1.
    pub fn new() -> (ids: TrackIdCounter)
        ensures
            ids@ == 0,
    {
        TrackIdCounter { last: 0 }
    }

    /// A counter that goes on after `last`.
    pub fn resuming_after(last: u64) -> (ids: TrackIdCounter)
        ensures
            ids@ == last,
    {
        TrackIdCounter { last }
    }

    /// The identifier issued last, 0 before the first.
    pub fn last(&self) -> (last: u64)
        ensures
            last == self@,
    {
        self.last
    }
}

/// Sets the counter back to its start, so that it issues 1 next.
pub fn reset_track_id_counter(ids: &mut TrackIdCounter)
    ensures
        final(ids)@ == 0,
{
    ids.last = 0;
}

/// What issuing one identifier does: `id` is one more than the last that
/// `before` issued, and the last that `after` has issued.
pub open spec fn issues(before: TrackIdCounter, id: u64, after: TrackIdCounter) -> bool {
    id == before@ + 1 && after@ == id
}

/// Issues the next identifier.
pub fn next_track_id(ids: &mut TrackIdCounter) -> (id: u64)
    requires
        old(ids)@ < u64::MAX,
    ensures
        issues(*old(ids), id, *final(ids)),
{
    ids.last = ids.last + 1;
    ids.last
}

/// Where the current box of a track is to be read from.
#[derive(Clone, Copy, Debug)]
pub enum BoxSource {
    /// From the filter's mean: centre x, centre y, aspect ratio and height.
    Estimate { cx: u64, cy: u64, a: u64, h: u64 },
    /// The box of the detection that the track was made from.
    Initial(Rect),
}

/// One object's tracking record.
#[derive(Clone, Copy, Debug)]
pub struct STrack {
    /// Unique identifier, 0 until the track is activated.
    pub track_id: u64,
    /// Current lifecycle state.
    pub state: TrackState,
    /// Whether the track is confirmed.
    pub is_activated: bool,
    /// Confidence of the detection associated last.
    pub score: Single,
    /// The frame the track was last updated in.
    pub frame_id: u32,
    /// The frame the track was activated in.
    pub start_frame: u32,
    /// Number of updates in a row since the track was activated or found again.
    pub tracklet_len: u32,
    /// Mean of the filter's estimate, absent until activation.
    pub mean: Option<Mean>,
    /// Covariance of the filter's estimate, absent until activation.
    pub covariance: Option<[[u64; 8]; 8]>,
    /// The box of the detection that the track was made from.
    pub tlwh: Rect,
}

impl STrack {
    /// The record of a detection that belongs to no track yet.
    pub open spec fn spec_new(tlwh: Rect, score: Single) -> STrack {
        STrack {
            track_id: 0,
            state: TrackState::New,
            is_activated: false,
            score,
            frame_id: 0,
            start_frame: 0,
            tracklet_len: 0,
            mean: None,
            covariance: None,
            tlwh,
        }
    }

    /// Whether the track holds an estimate of the filter.
    pub open spec fn has_moments(self) -> bool {
        self.mean is Some && self.covariance is Some
    }

    /// The track with the estimate replaced by `moments`, if it holds one.
    pub open spec fn with_moments(self, moments: Moments) -> STrack {
        if self.has_moments() {
            STrack { mean: Some(moments.mean), covariance: Some(moments.covariance), ..self }
        } else {
            self
        }
    }

    /// The estimate that the filter is to predict from: the track's own, with
    /// the height velocity cleared unless the track is in state `Tracking`.
    pub open spec fn spec_prediction_input(&self) -> Option<Moments> {
        if self.has_moments() {
            let own = Moments { mean: self.mean->0, covariance: self.covariance->0 };
            if self.state != TrackState::Tracking {
                Some(own.spec_without_height_velocity())
            } else {
                Some(own)
            }
        } else {
            None
        }
    }

    /// The track after activation in frame `frame_id` under identifier `id`,
    /// with `initial` as the filter's first estimate.
    pub open spec fn activated(self, initial: Moments, frame_id: u32, id: u64) -> STrack {
        STrack {
            track_id: id,
            state: TrackState::Tracking,
            is_activated: self.is_activated || frame_id == 1,
            score: self.score,
            frame_id,
            start_frame: frame_id,
            tracklet_len: 0,
            mean: Some(initial.mean),
            covariance: Some(initial.covariance),
            tlwh: self.tlwh,
        }
    }

    /// The track after it was found again in frame `frame_id` by a detection
    /// of confidence `score`, with `updated` as the filter's new estimate.
    pub open spec fn re_activated(self, score: Single, updated: Moments, frame_id: u32) -> STrack {
        STrack {
            state: TrackState::Tracking,
            is_activated: true,
            score,
            frame_id,
            tracklet_len: 0,
            ..self.with_moments(updated)
        }
    }

    /// The track after a detection of confidence `score` confirmed it in
    /// frame `frame_id`, with `updated` as the filter's new estimate.
    pub open spec fn updated(self, score: Single, updated: Moments, frame_id: u32) -> STrack {
        STrack {
            state: TrackState::Tracking,
            is_activated: true,
            score,
            frame_id,
            tracklet_len: (self.tracklet_len + 1) as u32,
            ..self.with_moments(updated)
        }
    }

    pub open spec fn marked_lost(self) -> STrack {
        STrack { state: TrackState::Lost, ..self }
    }

    pub open spec fn marked_removed(self) -> STrack {
        STrack { state: TrackState::Removed, ..self }
    }

    /// Where the current box is read from: the filter's mean once the track
    /// holds one, the initial box before.
    pub open spec fn spec_tlwh(&self) -> BoxSource {
        match self.mean {
            Some(mean) => BoxSource::Estimate { cx: mean.cx, cy: mean.cy, a: mean.a, h: mean.h },
            None => BoxSource::Initial(self.tlwh),
        }
    }

    /// Makes the record of a detection that belongs to no track yet.
    pub fn new(tlwh: Rect, score: Single) -> (track: STrack)
        ensures
            track == STrack::spec_new(tlwh, score),
    {
        STrack {
            track_id: 0,
            state: TrackState::New,
            is_activated: false,
            score,
            frame_id: 0,
            start_frame: 0,
            tracklet_len: 0,
            mean: None,
            covariance: None,
            tlwh,
        }
    }

    /// Where the current box is read from.
    #[verifier::when_used_as_spec(spec_tlwh)]
    pub fn tlwh(&self) -> (source: BoxSource)
        ensures
            source == self.spec_tlwh(),
    {
        match self.mean {
            Some(mean) => BoxSource::Estimate { cx: mean.cx, cy: mean.cy, a: mean.a, h: mean.h },
            None => BoxSource::Initial(self.tlwh),
        }
    }

    /// Where the current box is read from.
    pub fn rect(&self) -> (source: BoxSource)
        ensures
            source == self.spec_tlwh(),
    {
        self.tlwh()
    }

    /// The frame the track was last updated in.
    pub fn end_frame(&self) -> (frame: u32)
        ensures
            frame == self.frame_id,
    {
        self.frame_id
    }

    /// The estimate that the filter is to predict from, if the track holds one.
    #[verifier::when_used_as_spec(spec_prediction_input)]
    pub fn prediction_input(&self) -> (input: Option<Moments>)
        ensures
            input == self.spec_prediction_input(),
    {
        match (self.mean, self.covariance) {
            (Some(mean), Some(covariance)) => {
                let own = Moments { mean, covariance };
                if self.state != TrackState::Tracking {
                    Some(own.without_height_velocity())
                } else {
                    Some(own)
                }
            },
            _ => None,
        }
    }

    /// Takes a fresh identifier and starts the track in frame `frame_id`,
    /// with `initial` as the filter's first estimate. Only a track that starts
    /// in frame 1 is confirmed at once.
    pub fn activate(&mut self, initial: Moments, frame_id: u32, ids: &mut TrackIdCounter)
        requires
            old(ids)@ < u64::MAX,
        ensures
            final(ids)@ == old(ids)@ + 1,
            *final(self) == old(self).activated(initial, frame_id, final(ids)@),
    {
        self.track_id = next_track_id(ids);
        self.mean = Some(initial.mean);
        self.covariance = Some(initial.covariance);
        self.tracklet_len = 0;
        self.state = TrackState::Tracking;
        if frame_id == 1 {
            self.is_activated = true;
        }
        self.frame_id = frame_id;
        self.start_frame = frame_id;
    }

    /// Brings a lost track back in frame `frame_id`: it takes the confidence
    /// of `new_track`, and `updated` as its estimate where it held one. With
    /// `new_id` it also takes a fresh identifier.
    pub fn re_activate(
        &mut self,
        new_track: &STrack,
        updated: Moments,
        frame_id: u32,
        new_id: bool,
        ids: &mut TrackIdCounter,
    )
        requires
            new_id ==> old(ids)@ < u64::MAX,
        ensures
            new_id ==> final(ids)@ == old(ids)@ + 1 && *final(self) == (STrack {
                track_id: final(ids)@,
                ..old(self).re_activated(new_track.score, updated, frame_id)
            }),
            !new_id ==> final(ids)@ == old(ids)@ && *final(self) == old(self).re_activated(
                new_track.score,
                updated,
                frame_id,
            ),
    {
        if self.mean.is_some() && self.covariance.is_some() {
            self.mean = Some(updated.mean);
            self.covariance = Some(updated.covariance);
        }
        self.tracklet_len = 0;
        self.state = TrackState::Tracking;
        self.is_activated = true;
        self.frame_id = frame_id;
        self.score = new_track.score;
        if new_id {
            self.track_id = next_track_id(ids);
        }
    }

    /// Confirms the track in frame `frame_id`: it takes the confidence of
    /// `new_track`, and `updated` as its estimate where it held one.
    pub fn update(&mut self, new_track: &STrack, updated: Moments, frame_id: u32)
        requires
            old(self).tracklet_len < u32::MAX,
        ensures
            *final(self) == old(self).updated(new_track.score, updated, frame_id),
    {
        self.frame_id = frame_id;
        self.tracklet_len = self.tracklet_len + 1;
        if self.mean.is_some() && self.covariance.is_some() {
            self.mean = Some(updated.mean);
            self.covariance = Some(updated.covariance);
        }
        self.state = TrackState::Tracking;
        self.is_activated = true;
        self.score = new_track.score;
    }

    /// Stores what the filter predicted from `prediction_input`, where the
    /// track holds an estimate.
    pub fn predict(&mut self, predicted: Moments)
        ensures
            *final(self) == old(self).with_moments(predicted),
    {
        if self.mean.is_some() && self.covariance.is_some() {
            self.mean = Some(predicted.mean);
            self.covariance = Some(predicted.covariance);
        }
    }

    pub fn mark_lost(&mut self)
        ensures
            *final(self) == old(self).marked_lost(),
    {
        self.state = TrackState::Lost;
    }

    pub fn mark_removed(&mut self)
        ensures
            *final(self) == old(self).marked_removed(),
    {
        self.state = TrackState::Removed;
    }

    /// Stores for each track what the filter predicted for it.
    pub fn multi_predict(stracks: &mut Vec<STrack>, predicted: &Vec<Moments>)
        requires
            predicted.len() == old(stracks).len(),
        ensures
            final(stracks).len() == old(stracks).len(),
            forall|i: int|
                0 <= i < old(stracks).len() ==> #[trigger] final(stracks)@[i] == old(
                    stracks,
                )@[i].with_moments(predicted@[i]),
    {
        let n: usize = stracks.len();
        let mut i: usize = 0;
        while i < n
            invariant
                i <= n,
                n == stracks.len(),
                n == old(stracks).len(),
                n == predicted.len(),
                forall|k: int|
                    0 <= k < i ==> #[trigger] stracks@[k] == old(stracks)@[k].with_moments(
                        predicted@[k],
                    ),
                forall|k: int| i <= k < n ==> #[trigger] stracks@[k] == old(stracks)@[k],
            decreases n - i,
        {
            let mut track: STrack = stracks[i];
            track.predict(predicted[i]);
            stracks.set(i, track);
            i = i + 1;
        }
    }
}

/// Identifiers that one counter issues one after the other strictly
/// increase, and none is 0.
pub proof fn lemma_ids_strictly_increase(
    start: TrackIdCounter,
    first: u64,
    between: TrackIdCounter,
    second: u64,
    end: TrackIdCounter,
)
    requires
        issues(start, first, between),
        issues(between, second, end),
    ensures
        0 < first < second,
{
}

} // verus!

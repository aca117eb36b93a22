//! Lifecycle states of a track.

use vstd::prelude::*;

verus! {

/// Where a track stands in its life: `New` until it is activated, `Tracking`
/// while detections keep confirming it, `Lost` while none does, `Removed` for
/// good.
#[derive(Debug, Clone, Copy, PartialEq, Eq, Structural)]
pub enum TrackState {
    /// Newly created, not yet activated.
    New,
    /// Matched to a detection in the frame it was last seen in.
    Tracking,
    /// Unmatched for the moment; may be found again.
    Lost,
    /// Discarded; never enters a working set again.
    Removed,
}

impl Default for TrackState {
    fn default() -> (state: TrackState)
        ensures
            state == TrackState::New,
    {
        TrackState::New
    }
}

} // verus!

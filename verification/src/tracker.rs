//! The tracking core, leaves first: numbers, boxes, tracks, matching, tracker.

pub mod byte_tracker;
pub mod frame_state;
pub mod matching;
pub mod moments;
pub mod rect;
pub mod single;
pub mod strack;
pub mod track_sets;
pub mod track_state;

pub use byte_tracker::{
    BYTETracker, ConfigurationError, FrameStage, TrackerConfig, TrackerView,
};
pub use matching::{linear_assignment, AssignmentResult, CostMatrix, Detection};
pub use moments::{Mean, Moments};
pub use rect::Rect;
pub use single::Single;
pub use strack::{next_track_id, reset_track_id_counter, BoxSource, STrack, TrackIdCounter};
pub use track_sets::{joint_stracks, remove_duplicate_stracks, sub_stracks};
pub use track_state::TrackState;

//! ByteTrack multi-object tracking: the association and lifecycle core.
//!
//! Every number that a detector or a motion filter produces is carried here by
//! its IEEE 754 bit pattern. The library compares such numbers and moves them
//! around, and it decides which detection updates which track; the arithmetic
//! on them (box overlap, the motion filter, the assignment solver) is the
//! caller's, who hands the results in.

pub mod tracker;

pub use tracker::{
    BYTETracker, ConfigurationError, Detection, FrameStage, Rect, STrack, Single, TrackState,
    TrackerConfig,
};

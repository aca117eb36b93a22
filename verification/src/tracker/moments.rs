//! The motion filter's estimate of a track, as the tracker carries it.

use vstd::prelude::*;

verus! {

/// The mean of the motion filter's estimate: centre, aspect ratio and height
/// of the box, and the velocity of each. Every entry is a double-precision
/// number held by its bit pattern.
#[derive(Clone, Copy, Debug)]
pub struct Mean {
    /// Centre x.
    pub cx: u64,
    /// Centre y.
    pub cy: u64,
    /// Aspect ratio, width over height.
    pub a: u64,
    /// Height.
    pub h: u64,
    /// Velocity of the centre x.
    pub vx: u64,
    /// Velocity of the centre y.
    pub vy: u64,
    /// Velocity of the aspect ratio.
    pub va: u64,
    /// Velocity of the height.
    pub vh: u64,
}

/// Mean and covariance of the motion filter over the state
/// (cx, cy, a, h, vx, vy, va, vh).
///
/// The caller's filter produces and consumes these values. The tracker stores
/// the one that belongs to each track, and decides which one the filter is
/// to be run on next.
#[derive(Clone, Copy, Debug)]
pub struct Moments {
    pub mean: Mean,
    /// The 8 by 8 covariance, by rows, each entry a double-precision number
    /// held by its bit pattern.
    pub covariance: [[u64; 8]; 8],
}

impl Moments {
    /// The pair of a mean and a covariance.
    pub fn new(mean: Mean, covariance: [[u64; 8]; 8]) -> (m: Moments)
        ensures
            m.mean == mean,
            m.covariance == covariance,
    {
        Moments { mean, covariance }
    }

    /// The same estimate with the height velocity set to zero (all bits
    /// clear).
    pub open spec fn spec_without_height_velocity(self) -> Moments {
        Moments { mean: Mean { vh: 0, ..self.mean }, covariance: self.covariance }
    }

    /// The same estimate with the height velocity set to zero.
    #[verifier::when_used_as_spec(spec_without_height_velocity)]
    pub fn without_height_velocity(self) -> (m: Moments)
        ensures
            m == self.spec_without_height_velocity(),
    {
        Moments { mean: Mean { vh: 0, ..self.mean }, covariance: self.covariance }
    }
}

} // verus!

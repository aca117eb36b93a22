//! Axis-aligned bounding boxes, as the tracker carries them.

use vstd::prelude::*;
use crate::tracker::single::Single;

verus! {

/// An axis-aligned box by its top-left corner, width and height.
///
/// The tracker keeps the box a detection came with and hands it back; it never
/// computes on the coordinates.
#[derive(Clone, Copy, Debug)]
pub struct Rect {
    /// Top-left x coordinate.
    pub x: Single,
    /// Top-left y coordinate.
    pub y: Single,
    /// Width of the box.
    pub width: Single,
    /// Height of the box.
    pub height: Single,
}

impl Rect {
    /// The box with the given top-left corner, width and height.
    pub fn new(x: Single, y: Single, width: Single, height: Single) -> (r: Rect)
        ensures
            r.x == x,
            r.y == y,
            r.width == width,
            r.height == height,
    {
        Rect { x, y, width, height }
    }

    /// The four numbers in the order x, y, width, height.
    pub fn to_tlwh(&self) -> (r: [Single; 4])
        ensures
            r@ == seq![self.x, self.y, self.width, self.height],
    {
        [self.x, self.y, self.width, self.height]
    }
}

} // verus!

//! Axis-aligned rectangles with non-negative integer coordinates.
//!
//! The same value type serves both as a user-declared region and as a
//! grid-aligned cell produced by partitioning.

use vstd::prelude::*;

verus! {

/// A rectangle `[left, right) x [top, bottom)` in pixel coordinates.
#[derive(Clone, Copy, PartialEq, Eq, Structural, Debug)]
pub struct Rect {
    pub left: usize,
    pub top: usize,
    pub right: usize,
    pub bottom: usize,
}

impl Rect {
    /// A rectangle is well formed when it has positive extent on both axes.
    pub open spec fn wf(self) -> bool {
        self.left < self.right && self.top < self.bottom
    }

    /// Whether the rectangle lies inside a `width` by `height` frame anchored
    /// at the origin.
    pub open spec fn within_frame(self, width: int, height: int) -> bool {
        self.right <= width && self.bottom <= height
    }
}

} // verus!

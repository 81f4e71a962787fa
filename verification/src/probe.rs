//! The ballistic probe: a position and a velocity stepped under drag and
//! gravity, aimed at a rectangular target area.

use vstd::prelude::*;

verus! {

/// The sign of `v`.
pub open spec fn spec_signum(v: int) -> int {
    if v > 0 {
        1
    } else if v < 0 {
        -1
    } else {
        0
    }
}

/// A two-dimensional integer vector.
#[derive(Debug, Clone, Copy, PartialEq, Eq, Structural)]
pub struct Vector2 {
    pub x: i64,
    pub y: i64,
}

/// A probe in flight: where it is and where it is heading.
#[derive(Debug, Clone, Copy)]
pub struct Probe {
    pub position: Vector2,
    pub velocity: Vector2,
}

impl Probe {
    /// One simulation step: the position moves by the velocity, drag pulls
    /// the horizontal velocity one step toward zero, and gravity lowers
    /// the vertical velocity by one.
    pub fn update(&mut self)
        requires
            i64::MIN <= old(self).position.x + old(self).velocity.x <= i64::MAX,
            i64::MIN <= old(self).position.y + old(self).velocity.y <= i64::MAX,
            old(self).velocity.y > i64::MIN,
        ensures
            final(self).position.x == old(self).position.x + old(self).velocity.x,
            final(self).position.y == old(self).position.y + old(self).velocity.y,
            final(self).velocity.x == old(self).velocity.x - spec_signum(
                old(self).velocity.x as int,
            ),
            final(self).velocity.y == old(self).velocity.y - 1,
    {
        self.position = Vector2 {
            x: self.position.x + self.velocity.x,
            y: self.position.y + self.velocity.y,
        };
        let drag: i64 = if self.velocity.x > 0 {
            1
        } else if self.velocity.x < 0 {
            -1
        } else {
            0
        };
        self.velocity = Vector2 { x: self.velocity.x - drag, y: self.velocity.y - 1 };
    }
}

/// An axis-aligned target area, named by its top-left and bottom-right
/// corners; `y` grows upward.
#[derive(Debug, Clone, Copy, PartialEq, Eq, Structural)]
pub struct Rectangle {
    pub top_left_corner: Vector2,
    pub bottom_right_corner: Vector2,
}

impl Rectangle {
    /// Whether `point` lies in the area, border included.
    pub fn contains(&self, point: &Vector2) -> (b: bool)
        ensures
            b == (self.top_left_corner.x <= point.x <= self.bottom_right_corner.x
                && self.bottom_right_corner.y <= point.y <= self.top_left_corner.y),
    {
        point.x >= self.top_left_corner.x && point.x <= self.bottom_right_corner.x && point.y
            <= self.top_left_corner.y && point.y >= self.bottom_right_corner.y
    }

    /// Whether the probe has flown past the area and can no longer hit it:
    /// below it and still falling, or beyond it sideways and still moving
    /// away.
    pub fn passed(&self, probe: &Probe) -> (b: bool)
        ensures
            b == ((probe.position.y < self.bottom_right_corner.y && probe.velocity.y < 0) || (
            probe.position.x > self.bottom_right_corner.x && probe.velocity.x > 0) || (
            probe.position.x < self.top_left_corner.x && probe.velocity.x < 0)),
    {
        (probe.position.y < self.bottom_right_corner.y && probe.velocity.y < 0) || (probe.position.x
            > self.bottom_right_corner.x && probe.velocity.x > 0) || (probe.position.x
            < self.top_left_corner.x && probe.velocity.x < 0)
    }
}

} // verus!

//! Straight line segments between two points.
use crate::geometry::{Point, Vector};
use vstd::prelude::*;

verus! {

/// The segment from `start` to `end`.
#[derive(Copy, Clone, Debug)]
pub struct LineSegment<const D: usize, N> {
    pub start: Point<D, N>,
    pub end: Point<D, N>,
}

impl<const D: usize, N: Copy> LineSegment<D, N> {
    /// The segment between the two points of a pair, in order.
    pub fn from(value: (Point<D, N>, Point<D, N>)) -> (r: Self)
        ensures
            r.start == value.0,
            r.end == value.1,
    {
        LineSegment { start: value.0, end: value.1 }
    }
}

/// The smaller of two values.
pub open spec fn min_of(a: int, b: int) -> int {
    if a <= b {
        a
    } else {
        b
    }
}

/// The larger of two values.
pub open spec fn max_of(a: int, b: int) -> int {
    if a >= b {
        a
    } else {
        b
    }
}

impl LineSegment<2, i32> {
    /// The smallest `x` of the two ends.
    pub fn min_x(&self) -> (r: i32)
        ensures
            r == min_of(self.start.coords[0] as int, self.end.coords[0] as int),
    {
        if self.start.coords[0] <= self.end.coords[0] {
            self.start.coords[0]
        } else {
            self.end.coords[0]
        }
    }

    /// The smallest `y` of the two ends.
    pub fn min_y(&self) -> (r: i32)
        ensures
            r == min_of(self.start.coords[1] as int, self.end.coords[1] as int),
    {
        if self.start.coords[1] <= self.end.coords[1] {
            self.start.coords[1]
        } else {
            self.end.coords[1]
        }
    }

    /// The largest `x` of the two ends.
    pub fn max_x(&self) -> (r: i32)
        ensures
            r == max_of(self.start.coords[0] as int, self.end.coords[0] as int),
    {
        if self.start.coords[0] >= self.end.coords[0] {
            self.start.coords[0]
        } else {
            self.end.coords[0]
        }
    }

    /// The largest `y` of the two ends.
    pub fn max_y(&self) -> (r: i32)
        ensures
            r == max_of(self.start.coords[1] as int, self.end.coords[1] as int),
    {
        if self.start.coords[1] >= self.end.coords[1] {
            self.start.coords[1]
        } else {
            self.end.coords[1]
        }
    }

    /// The segment moved by a vector.
    pub fn add(self, rhs: Vector<2, i32>) -> (r: Self)
        requires
            i32::MIN <= self.start.coords[0] + rhs.coords[0] <= i32::MAX,
            i32::MIN <= self.start.coords[1] + rhs.coords[1] <= i32::MAX,
            i32::MIN <= self.end.coords[0] + rhs.coords[0] <= i32::MAX,
            i32::MIN <= self.end.coords[1] + rhs.coords[1] <= i32::MAX,
        ensures
            r.start.coords[0] == self.start.coords[0] + rhs.coords[0],
            r.start.coords[1] == self.start.coords[1] + rhs.coords[1],
            r.end.coords[0] == self.end.coords[0] + rhs.coords[0],
            r.end.coords[1] == self.end.coords[1] + rhs.coords[1],
    {
        LineSegment { start: self.start.add(rhs), end: self.end.add(rhs) }
    }
}

} // verus!

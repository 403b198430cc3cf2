//! Points and vectors of a fixed dimension.
use vstd::prelude::*;

verus! {

/// A point with `D` coordinates.
#[derive(Copy, Clone, Debug, Hash, PartialEq, Eq)]
pub struct Point<const D: usize, T> {
    pub coords: [T; D],
}

/// A vector (a difference between points) with `D` coordinates.
#[derive(Copy, Clone, Debug, Hash, PartialEq, Eq)]
pub struct Vector<const D: usize, T> {
    pub coords: [T; D],
}

/// Builds a two-dimensional point.
pub fn point2<T>(x: T, y: T) -> (p: Point<2, T>)
    ensures
        p.coords[0] == x,
        p.coords[1] == y,
{
    Point { coords: [x, y] }
}

/// Builds a two-dimensional vector.
pub fn vector2<T>(x: T, y: T) -> (v: Vector<2, T>)
    ensures
        v.coords[0] == x,
        v.coords[1] == y,
{
    Vector { coords: [x, y] }
}


/// Builds a three-dimensional point.
pub fn point3<T>(x: T, y: T, z: T) -> (p: Point<3, T>)
    ensures
        p.coords[0] == x,
        p.coords[1] == y,
        p.coords[2] == z,
{
    Point { coords: [x, y, z] }
}

/// Builds a four-dimensional point.
pub fn point4<T>(w: T, x: T, y: T, z: T) -> (p: Point<4, T>)
    ensures
        p.coords[0] == w,
        p.coords[1] == x,
        p.coords[2] == y,
        p.coords[3] == z,
{
    Point { coords: [w, x, y, z] }
}

/// Builds a three-dimensional vector.
pub fn vector3<T>(x: T, y: T, z: T) -> (v: Vector<3, T>)
    ensures
        v.coords[0] == x,
        v.coords[1] == y,
        v.coords[2] == z,
{
    Vector { coords: [x, y, z] }
}

/// Builds a four-dimensional vector.
pub fn vector4<T>(w: T, x: T, y: T, z: T) -> (v: Vector<4, T>)
    ensures
        v.coords[0] == w,
        v.coords[1] == x,
        v.coords[2] == y,
        v.coords[3] == z,
{
    Vector { coords: [w, x, y, z] }
}

impl<T: Copy> Point<2, T> {
    pub fn x(&self) -> (r: T)
        ensures
            r == self.coords[0],
    {
        self.coords[0]
    }

    pub fn y(&self) -> (r: T)
        ensures
            r == self.coords[1],
    {
        self.coords[1]
    }
}

impl<T: Copy> Point<3, T> {
    pub fn x(&self) -> (r: T)
        ensures
            r == self.coords[0],
    {
        self.coords[0]
    }

    pub fn y(&self) -> (r: T)
        ensures
            r == self.coords[1],
    {
        self.coords[1]
    }

    pub fn z(&self) -> (r: T)
        ensures
            r == self.coords[2],
    {
        self.coords[2]
    }
}

impl<T: Copy> Vector<2, T> {
    pub fn x(&self) -> (r: T)
        ensures
            r == self.coords[0],
    {
        self.coords[0]
    }

    pub fn y(&self) -> (r: T)
        ensures
            r == self.coords[1],
    {
        self.coords[1]
    }
}

impl<T: Copy> Vector<3, T> {
    pub fn x(&self) -> (r: T)
        ensures
            r == self.coords[0],
    {
        self.coords[0]
    }

    pub fn y(&self) -> (r: T)
        ensures
            r == self.coords[1],
    {
        self.coords[1]
    }

    pub fn z(&self) -> (r: T)
        ensures
            r == self.coords[2],
    {
        self.coords[2]
    }
}

impl<T: Copy> Point<4, T> {
    pub fn x(&self) -> (r: T)
        ensures
            r == self.coords[0],
    {
        self.coords[0]
    }

    pub fn y(&self) -> (r: T)
        ensures
            r == self.coords[1],
    {
        self.coords[1]
    }

    pub fn z(&self) -> (r: T)
        ensures
            r == self.coords[2],
    {
        self.coords[2]
    }

    pub fn w(&self) -> (r: T)
        ensures
            r == self.coords[3],
    {
        self.coords[3]
    }
}

impl<T: Copy> Vector<4, T> {
    pub fn x(&self) -> (r: T)
        ensures
            r == self.coords[0],
    {
        self.coords[0]
    }

    pub fn y(&self) -> (r: T)
        ensures
            r == self.coords[1],
    {
        self.coords[1]
    }

    pub fn z(&self) -> (r: T)
        ensures
            r == self.coords[2],
    {
        self.coords[2]
    }

    pub fn w(&self) -> (r: T)
        ensures
            r == self.coords[3],
    {
        self.coords[3]
    }
}

/// True when every coordinate fits in an `i32`.
pub open spec fn fits_i32(v: int) -> bool {
    i32::MIN <= v <= i32::MAX
}

impl Point<2, i32> {
    /// The point moved by a vector.
    pub fn add(self, rhs: Vector<2, i32>) -> (r: Point<2, i32>)
        requires
            fits_i32(self.coords[0] + rhs.coords[0]),
            fits_i32(self.coords[1] + rhs.coords[1]),
        ensures
            r.coords[0] == self.coords[0] + rhs.coords[0],
            r.coords[1] == self.coords[1] + rhs.coords[1],
    {
        point2(self.coords[0] + rhs.coords[0], self.coords[1] + rhs.coords[1])
    }

    /// The vector from `rhs` to this point.
    pub fn sub(self, rhs: Point<2, i32>) -> (r: Vector<2, i32>)
        requires
            fits_i32(self.coords[0] - rhs.coords[0]),
            fits_i32(self.coords[1] - rhs.coords[1]),
        ensures
            r.coords[0] == self.coords[0] - rhs.coords[0],
            r.coords[1] == self.coords[1] - rhs.coords[1],
    {
        vector2(self.coords[0] - rhs.coords[0], self.coords[1] - rhs.coords[1])
    }

    /// The point moved back by a vector.
    pub fn sub_vector(self, rhs: Vector<2, i32>) -> (r: Point<2, i32>)
        requires
            fits_i32(self.coords[0] - rhs.coords[0]),
            fits_i32(self.coords[1] - rhs.coords[1]),
        ensures
            r.coords[0] == self.coords[0] - rhs.coords[0],
            r.coords[1] == self.coords[1] - rhs.coords[1],
    {
        point2(self.coords[0] - rhs.coords[0], self.coords[1] - rhs.coords[1])
    }

    /// Every coordinate multiplied by a factor.
    pub fn mul(self, rhs: i32) -> (r: Point<2, i32>)
        requires
            fits_i32(self.coords[0] * rhs),
            fits_i32(self.coords[1] * rhs),
        ensures
            r.coords[0] == self.coords[0] * rhs,
            r.coords[1] == self.coords[1] * rhs,
    {
        point2(self.coords[0] * rhs, self.coords[1] * rhs)
    }

    /// True when both coordinates are equal.
    pub fn same_as(&self, other: &Point<2, i32>) -> (r: bool)
        ensures
            r == (self.coords[0] == other.coords[0] && self.coords[1] == other.coords[1]),
    {
        self.coords[0] == other.coords[0] && self.coords[1] == other.coords[1]
    }
}

impl Vector<2, i32> {
    /// The sum of two vectors.
    pub fn add(self, rhs: Vector<2, i32>) -> (r: Vector<2, i32>)
        requires
            fits_i32(self.coords[0] + rhs.coords[0]),
            fits_i32(self.coords[1] + rhs.coords[1]),
        ensures
            r.coords[0] == self.coords[0] + rhs.coords[0],
            r.coords[1] == self.coords[1] + rhs.coords[1],
    {
        vector2(self.coords[0] + rhs.coords[0], self.coords[1] + rhs.coords[1])
    }

    /// The difference of two vectors.
    pub fn sub(self, rhs: Vector<2, i32>) -> (r: Vector<2, i32>)
        requires
            fits_i32(self.coords[0] - rhs.coords[0]),
            fits_i32(self.coords[1] - rhs.coords[1]),
        ensures
            r.coords[0] == self.coords[0] - rhs.coords[0],
            r.coords[1] == self.coords[1] - rhs.coords[1],
    {
        vector2(self.coords[0] - rhs.coords[0], self.coords[1] - rhs.coords[1])
    }

    /// Every coordinate multiplied by a factor.
    pub fn mul(self, rhs: i32) -> (r: Vector<2, i32>)
        requires
            fits_i32(self.coords[0] * rhs),
            fits_i32(self.coords[1] * rhs),
        ensures
            r.coords[0] == self.coords[0] * rhs,
            r.coords[1] == self.coords[1] * rhs,
    {
        vector2(self.coords[0] * rhs, self.coords[1] * rhs)
    }

    /// The vector pointing the other way.
    pub fn neg(self) -> (r: Vector<2, i32>)
        requires
            self.coords[0] != i32::MIN,
            self.coords[1] != i32::MIN,
        ensures
            r.coords[0] == -self.coords[0],
            r.coords[1] == -self.coords[1],
    {
        vector2(-self.coords[0], -self.coords[1])
    }

    /// The cross product `rhs.x * self.y - self.x * rhs.y`.
    pub fn cross(self, rhs: Vector<2, i32>) -> (r: i32)
        requires
            fits_i32(rhs.coords[0] * self.coords[1]),
            fits_i32(self.coords[0] * rhs.coords[1]),
            fits_i32(rhs.coords[0] * self.coords[1] - self.coords[0] * rhs.coords[1]),
        ensures
            r == rhs.coords[0] * self.coords[1] - self.coords[0] * rhs.coords[1],
    {
        rhs.coords[0] * self.coords[1] - self.coords[0] * rhs.coords[1]
    }

    /// The Manhattan length `|x| + |y|`.
    pub fn euler(&self) -> (r: i32)
        requires
            self.coords[0] != i32::MIN,
            self.coords[1] != i32::MIN,
            fits_i32(abs(self.coords[0] as int) + abs(self.coords[1] as int)),
        ensures
            r == abs(self.coords[0] as int) + abs(self.coords[1] as int),
    {
        let x = if self.coords[0] < 0 { -self.coords[0] } else { self.coords[0] };
        let y = if self.coords[1] < 0 { -self.coords[1] } else { self.coords[1] };
        x + y
    }

    /// The product of the coordinates: the area that the vector spans.
    pub fn content_size(self) -> (r: i32)
        requires
            fits_i32(self.coords[0] * self.coords[1]),
        ensures
            r == self.coords[0] * self.coords[1],
    {
        self.coords[0] * self.coords[1]
    }
}

/// The absolute value of an integer.
pub open spec fn abs(v: int) -> int {
    if v < 0 { -v } else { v }
}

/// True when every coordinate fits in an `i64`.
pub open spec fn fits_i64(v: int) -> bool {
    i64::MIN <= v <= i64::MAX
}

impl Point<3, i64> {
    /// The vector from `rhs` to this point.
    pub fn sub(self, rhs: Point<3, i64>) -> (r: Vector<3, i64>)
        requires
            fits_i64(self.coords[0] - rhs.coords[0]),
            fits_i64(self.coords[1] - rhs.coords[1]),
            fits_i64(self.coords[2] - rhs.coords[2]),
        ensures
            r.coords[0] == self.coords[0] - rhs.coords[0],
            r.coords[1] == self.coords[1] - rhs.coords[1],
            r.coords[2] == self.coords[2] - rhs.coords[2],
    {
        vector3(
            self.coords[0] - rhs.coords[0],
            self.coords[1] - rhs.coords[1],
            self.coords[2] - rhs.coords[2],
        )
    }

    /// The point moved by a vector.
    pub fn add(self, rhs: Vector<3, i64>) -> (r: Point<3, i64>)
        requires
            fits_i64(self.coords[0] + rhs.coords[0]),
            fits_i64(self.coords[1] + rhs.coords[1]),
            fits_i64(self.coords[2] + rhs.coords[2]),
        ensures
            r.coords[0] == self.coords[0] + rhs.coords[0],
            r.coords[1] == self.coords[1] + rhs.coords[1],
            r.coords[2] == self.coords[2] + rhs.coords[2],
    {
        point3(
            self.coords[0] + rhs.coords[0],
            self.coords[1] + rhs.coords[1],
            self.coords[2] + rhs.coords[2],
        )
    }
}

impl Point<3, i32> {
    /// The point moved by a vector.
    pub fn add(self, rhs: Vector<3, i32>) -> (r: Point<3, i32>)
        requires
            forall|i: int| 0 <= i < 3 ==> fits_i32(self.coords[i] + rhs.coords[i]),
        ensures
            forall|i: int| 0 <= i < 3 ==> #[trigger] r.coords[i] == self.coords[i] + rhs.coords[i],
    {
        assert(fits_i32(self.coords[0] + rhs.coords[0]) && fits_i32(self.coords[1] + rhs.coords[1]) && fits_i32(
            self.coords[2] + rhs.coords[2],
        ));
        let r = point3(self.coords[0] + rhs.coords[0], self.coords[1] + rhs.coords[1], self.coords[2] + rhs.coords[2]);
        assert forall|i: int| 0 <= i < 3 implies #[trigger] r.coords[i] == self.coords[i] + rhs.coords[i] by {
            if i == 0 {
            } else if i == 1 {
            } else {
            }
        }
        r
    }
}

impl Point<4, i32> {
    /// The point moved by a vector.
    pub fn add(self, rhs: Vector<4, i32>) -> (r: Point<4, i32>)
        requires
            forall|i: int| 0 <= i < 4 ==> fits_i32(self.coords[i] + rhs.coords[i]),
        ensures
            forall|i: int| 0 <= i < 4 ==> #[trigger] r.coords[i] == self.coords[i] + rhs.coords[i],
    {
        assert(fits_i32(self.coords[0] + rhs.coords[0]) && fits_i32(self.coords[1] + rhs.coords[1]) && fits_i32(
            self.coords[2] + rhs.coords[2],
        ) && fits_i32(self.coords[3] + rhs.coords[3]));
        let r = point4(
            self.coords[0] + rhs.coords[0],
            self.coords[1] + rhs.coords[1],
            self.coords[2] + rhs.coords[2],
            self.coords[3] + rhs.coords[3],
        );
        assert forall|i: int| 0 <= i < 4 implies #[trigger] r.coords[i] == self.coords[i] + rhs.coords[i] by {
            if i == 0 {
            } else if i == 1 {
            } else if i == 2 {
            } else {
            }
        }
        r
    }
}

/// The smallest axis-aligned box holding two corner points.
#[derive(Copy, Clone, Debug, Hash, PartialEq, Eq)]
pub struct BoundingBox<const D: usize, T> {
    min: Point<D, T>,
    max: Point<D, T>,
}

impl BoundingBox<2, i32> {
    /// The coordinate-wise smallest corner.
    pub closed spec fn spec_min(self) -> Point<2, i32> {
        self.min
    }

    /// The coordinate-wise largest corner.
    pub closed spec fn spec_max(self) -> Point<2, i32> {
        self.max
    }

    /// The box spanned by two opposite corners.
    pub closed spec fn spec_from(first: Point<2, i32>, second: Point<2, i32>) -> BoundingBox<2, i32> {
        let min_x = if second.coords[0] < first.coords[0] { second.coords[0] } else { first.coords[0] };
        let min_y = if second.coords[1] < first.coords[1] { second.coords[1] } else { first.coords[1] };
        let max_x = if first.coords[0] > second.coords[0] { first.coords[0] } else { second.coords[0] };
        let max_y = if first.coords[1] > second.coords[1] { first.coords[1] } else { second.coords[1] };
        BoundingBox { min: Point { coords: [min_x, min_y] }, max: Point { coords: [max_x, max_y] } }
    }

    /// The box spanned by two opposite corners.
    pub fn from(first: Point<2, i32>, second: Point<2, i32>) -> (r: BoundingBox<2, i32>)
        ensures
            r == BoundingBox::spec_from(first, second),
            forall|i: int|
                0 <= i < 2 ==> #[trigger] r.spec_min().coords[i] == if first.coords[i]
                    <= second.coords[i] {
                    first.coords[i]
                } else {
                    second.coords[i]
                },
            forall|i: int|
                0 <= i < 2 ==> #[trigger] r.spec_max().coords[i] == if first.coords[i]
                    >= second.coords[i] {
                    first.coords[i]
                } else {
                    second.coords[i]
                },
    {
        let min_x = if second.coords[0] < first.coords[0] { second.coords[0] } else { first.coords[0] };
        let min_y = if second.coords[1] < first.coords[1] { second.coords[1] } else { first.coords[1] };
        let max_x = if first.coords[0] > second.coords[0] { first.coords[0] } else { second.coords[0] };
        let max_y = if first.coords[1] > second.coords[1] { first.coords[1] } else { second.coords[1] };
        let r = BoundingBox { min: Point { coords: [min_x, min_y] }, max: Point { coords: [max_x, max_y] } };
        r
    }

    /// Grows the box by `amount` on every side.
    pub fn expand(&mut self, amount: Vector<2, i32>)
        requires
            fits_i32(old(self).spec_min().coords[0] - amount.coords[0]),
            fits_i32(old(self).spec_min().coords[1] - amount.coords[1]),
            fits_i32(old(self).spec_max().coords[0] + amount.coords[0]),
            fits_i32(old(self).spec_max().coords[1] + amount.coords[1]),
        ensures
            final(self).spec_min().coords[0] == old(self).spec_min().coords[0] - amount.coords[0],
            final(self).spec_min().coords[1] == old(self).spec_min().coords[1] - amount.coords[1],
            final(self).spec_max().coords[0] == old(self).spec_max().coords[0] + amount.coords[0],
            final(self).spec_max().coords[1] == old(self).spec_max().coords[1] + amount.coords[1],
    {
        self.min = self.min.sub_vector(amount);
        self.max = self.max.add(amount);
    }

    /// The coordinate-wise smallest corner.
    pub fn min_point(&self) -> (r: Point<2, i32>)
        ensures
            r == self.spec_min(),
    {
        self.min
    }

    /// The coordinate-wise largest corner.
    pub fn max_point(&self) -> (r: Point<2, i32>)
        ensures
            r == self.spec_max(),
    {
        self.max
    }

    /// The vector from the smallest to the largest corner.
    pub fn total_size(&self) -> (r: Vector<2, i32>)
        requires
            fits_i32(self.spec_max().coords[0] - self.spec_min().coords[0]),
            fits_i32(self.spec_max().coords[1] - self.spec_min().coords[1]),
        ensures
            r.coords[0] == self.spec_max().coords[0] - self.spec_min().coords[0],
            r.coords[1] == self.spec_max().coords[1] - self.spec_min().coords[1],
    {
        self.max.sub(self.min)
    }

    /// True when the point lies inside the box or on its border.
    pub fn contains_inclusive(&self, point: &Point<2, i32>) -> (r: bool)
        ensures
            r == (self.spec_min().coords[0] <= point.coords[0] <= self.spec_max().coords[0]
                && self.spec_min().coords[1] <= point.coords[1] <= self.spec_max().coords[1]),
    {
        !(point.coords[0] < self.min.coords[0] || point.coords[0] > self.max.coords[0]
            || point.coords[1] < self.min.coords[1] || point.coords[1] > self.max.coords[1])
    }
}

/// The smallest box that holds every point, or `None` for no points.
pub fn enclosing_rect(points: &Vec<Point<2, i32>>) -> (r: Option<BoundingBox<2, i32>>)
    ensures
        points.len() == 0 <==> r.is_none(),
        r matches Some(bb) ==> {
            &&& forall|i: int, c: int|
                0 <= i < points.len() && 0 <= c < 2 ==> bb.spec_min().coords[c] <= #[trigger] points@[i].coords[c]
                    <= bb.spec_max().coords[c]
            &&& exists|i: int|
                0 <= i < points.len() && #[trigger] points@[i].coords[0] == bb.spec_min().coords[0]
            &&& exists|i: int|
                0 <= i < points.len() && #[trigger] points@[i].coords[1] == bb.spec_min().coords[1]
            &&& exists|i: int|
                0 <= i < points.len() && #[trigger] points@[i].coords[0] == bb.spec_max().coords[0]
            &&& exists|i: int|
                0 <= i < points.len() && #[trigger] points@[i].coords[1] == bb.spec_max().coords[1]
        },
{
    if points.len() == 0 {
        return None;
    }
    let first = points[0];
    let mut min_x = first.coords[0];
    let mut min_y = first.coords[1];
    let mut max_x = first.coords[0];
    let mut max_y = first.coords[1];
    let ghost mut ix_min_x: int = 0;
    let ghost mut ix_min_y: int = 0;
    let ghost mut ix_max_x: int = 0;
    let ghost mut ix_max_y: int = 0;
    let mut i: usize = 1;
    while i < points.len()
        invariant
            1 <= i <= points.len(),
            0 <= ix_min_x < i && points@[ix_min_x].coords[0] == min_x,
            0 <= ix_min_y < i && points@[ix_min_y].coords[1] == min_y,
            0 <= ix_max_x < i && points@[ix_max_x].coords[0] == max_x,
            0 <= ix_max_y < i && points@[ix_max_y].coords[1] == max_y,
            forall|k: int|
                0 <= k < i ==> min_x <= #[trigger] points@[k].coords[0] <= max_x
                    && min_y <= points@[k].coords[1] <= max_y,
        decreases points.len() - i,
    {
        let p = points[i];
        if p.coords[0] < min_x {
            min_x = p.coords[0];
            proof { ix_min_x = i as int; }
        }
        if p.coords[0] > max_x {
            max_x = p.coords[0];
            proof { ix_max_x = i as int; }
        }
        if p.coords[1] < min_y {
            min_y = p.coords[1];
            proof { ix_min_y = i as int; }
        }
        if p.coords[1] > max_y {
            max_y = p.coords[1];
            proof { ix_max_y = i as int; }
        }
        i = i + 1;
    }
    let bb = BoundingBox { min: point2(min_x, min_y), max: point2(max_x, max_y) };
    assert forall|k: int, c: int|
        0 <= k < points.len() && 0 <= c < 2 implies bb.min.coords[c] <= #[trigger] points@[k].coords[c]
            <= bb.max.coords[c] by {
        let p = points@[k];
        assert(min_x <= p.coords[0] <= max_x && min_y <= p.coords[1] <= max_y);
        if c == 0 {
            assert(bb.min.coords[c] == min_x && bb.max.coords[c] == max_x);
        } else {
            assert(bb.min.coords[c] == min_y && bb.max.coords[c] == max_y);
        }
    }
    assert(points@[ix_min_x].coords[0] == bb.spec_min().coords[0]);
    assert(points@[ix_min_y].coords[1] == bb.spec_min().coords[1]);
    assert(points@[ix_max_x].coords[0] == bb.spec_max().coords[0]);
    assert(points@[ix_max_y].coords[1] == bb.spec_max().coords[1]);
    Some(bb)
}

/// The points from a start on, each one step of `direction` past the one
/// before.
pub struct PointIterator<const D: usize, T> {
    point: Point<D, T>,
    direction: Vector<D, T>,
}

impl PointIterator<2, i32> {
    /// The point handed out last (one step before the start, at first).
    pub closed spec fn spec_point(&self) -> Point<2, i32> {
        self.point
    }

    /// The step between points.
    pub closed spec fn spec_direction(&self) -> Vector<2, i32> {
        self.direction
    }

    /// The points `start`, `start + direction`, and so on.
    pub fn new(start: Point<2, i32>, direction: Vector<2, i32>) -> (r: Self)
        requires
            fits_i32(start.coords[0] - direction.coords[0]),
            fits_i32(start.coords[1] - direction.coords[1]),
        ensures
            r.spec_point().coords[0] == start.coords[0] - direction.coords[0],
            r.spec_point().coords[1] == start.coords[1] - direction.coords[1],
            r.spec_direction() == direction,
    {
        PointIterator { point: start.sub_vector(direction), direction }
    }

    /// The next point; there always is one.
    pub fn next(&mut self) -> (r: Option<Point<2, i32>>)
        requires
            fits_i32(old(self).spec_point().coords[0] + old(self).spec_direction().coords[0]),
            fits_i32(old(self).spec_point().coords[1] + old(self).spec_direction().coords[1]),
        ensures
            final(self).spec_direction() == old(self).spec_direction(),
            final(self).spec_point().coords[0] == old(self).spec_point().coords[0] + old(self).spec_direction().coords[0],
            final(self).spec_point().coords[1] == old(self).spec_point().coords[1] + old(self).spec_direction().coords[1],
            r == Some(final(self).spec_point()),
    {
        self.point = self.point.add(self.direction);
        Some(self.point)
    }
}

} // verus!

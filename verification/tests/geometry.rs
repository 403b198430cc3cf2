use advent_lib::geometry::{point2, point3, point4, vector2, vector3, vector4, BoundingBox, PointIterator};
use advent_lib::lines::LineSegment;

#[test]
fn point_add_vector() {
    assert_eq!(point2(3, 3), point2(1, 2).add(vector2(2, 1)));
    assert_eq!(point3(-6i32, 6, 0), point3(-12i32, 12, 1).add(vector3(6, -6, -1)));
    assert_eq!(point4(1, 2, 3, 4), point4(0, 0, 0, 0).add(vector4(1, 2, 3, 4)));
}

#[test]
fn vector_add_vector() {
    assert_eq!(vector2(4, 4), vector2(1, 2).add(vector2(3, 2)))
}

#[test]
fn point_sub_point() {
    assert_eq!(vector2(-1, 2), point2(4, 2).sub(point2(5, 0)))
}

#[test]
fn vector_sub_vector() {
    assert_eq!(vector2(0, 0), vector2(2, 4).sub(vector2(2, 4)))
}

#[test]
fn multiply_vector() {
    assert_eq!(vector2(6, 6), vector2(2, 2).mul(3))
}

#[test]
fn vector_cross_and_length() {
    assert_eq!(vector2(2, 3).cross(vector2(4, 5)), 4 * 3 - 2 * 5);
    assert_eq!(vector2(-3, 4).euler(), 7);
    assert_eq!(vector2(-3, 4).neg(), vector2(3, -4));
    assert_eq!(vector2(3, 4).content_size(), 12);
}

#[test]
fn bounding_box_of_two_corners() {
    let bb = BoundingBox::from(point2(5, 1), point2(2, 7));
    assert_eq!(bb.min_point(), point2(2, 1));
    assert_eq!(bb.max_point(), point2(5, 7));
    assert_eq!(bb.total_size(), vector2(3, 6));
    assert!(bb.contains_inclusive(&point2(5, 7)));
    assert!(!bb.contains_inclusive(&point2(6, 7)));
}

#[test]
fn enclosing_rect_of_points() {
    let points = vec![point2(1, 5), point2(-2, 3), point2(4, 0)];
    let bb = advent_lib::geometry::enclosing_rect(&points).unwrap();
    assert_eq!(bb.min_point(), point2(-2, 0));
    assert_eq!(bb.max_point(), point2(4, 5));
    assert!(advent_lib::geometry::enclosing_rect(&Vec::new()).is_none());
}

#[test]
fn line_segment_bounds() {
    let line = LineSegment::from((point2(5, -1), point2(2, 7)));
    assert_eq!((line.min_x(), line.max_x()), (2, 5));
    assert_eq!((line.min_y(), line.max_y()), (-1, 7));
    let moved = line.add(vector2(1, 1));
    assert_eq!((moved.start, moved.end), (point2(6, 0), point2(3, 8)));
}

#[test]
fn point_iterator_steps_from_start() {
    let mut points = PointIterator::new(point2(1, 1), vector2(2, -1));
    assert_eq!(points.next(), Some(point2(1, 1)));
    assert_eq!(points.next(), Some(point2(3, 0)));
    assert_eq!(points.next(), Some(point2(5, -1)));
}

#[test]
fn four_dimensional_accessors() {
    let p = point4(1, 2, 3, 4);
    assert_eq!((p.x(), p.y(), p.z(), p.w()), (1, 2, 3, 4));
    let v = vector4(5, 6, 7, 8);
    assert_eq!((v.x(), v.y(), v.z(), v.w()), (5, 6, 7, 8));
}

use advent_lib::direction::{CardinalDirection, Direction};
use advent_lib::geometry::vector2;
use advent_lib::math::greatest_common_divisor;

#[test]
fn turning_and_axes() {
    assert_eq!(Direction::North.turn_right(), Direction::East);
    assert_eq!(Direction::North.turn_left(), Direction::West);
    assert_eq!(Direction::West.turn_right().turn_right(), Direction::East);
    assert!(Direction::East.is_horizontal());
    assert!(Direction::South.is_vertical());
    assert_eq!(Direction::South.neg(), Direction::North);
    assert_eq!(Direction::South.as_vec(), vector2(0, 1));
    assert_eq!(Direction::from(b'<'), Direction::West);
    assert_eq!(Direction::North.as_number(), 3);
}

#[test]
fn compass_steps() {
    assert_eq!(CardinalDirection::all().len(), 8);
    assert_eq!(CardinalDirection::NE.as_vec(), vector2(1, -1));
    assert_eq!(CardinalDirection::SW.index(), 5);
}

#[test]
fn gcd_of_numbers() {
    assert_eq!(greatest_common_divisor(12, 18), 6);
    assert_eq!(greatest_common_divisor(7, 7), 7);
}

//! The four grid directions and the eight compass directions.
use crate::geometry::{vector2, Vector};
use crate::parsing::{ErrorKind, ParseResult};
use vstd::prelude::*;

verus! {

/// One of the four directions on a grid whose y axis points down (south).
#[derive(Debug, Copy, Clone, Hash, PartialEq, Eq, Structural)]
pub enum Direction {
    North,
    East,
    South,
    West,
}

/// The position of a direction when going round clockwise from north.
pub open spec fn clockwise_index(d: Direction) -> int {
    match d {
        Direction::North => 0,
        Direction::East => 1,
        Direction::South => 2,
        Direction::West => 3,
    }
}

/// The direction at the given clockwise position, taken modulo four.
pub open spec fn direction_at(ix: int) -> Direction {
    let m = ix % 4;
    if m == 0 {
        Direction::North
    } else if m == 1 {
        Direction::East
    } else if m == 2 {
        Direction::South
    } else {
        Direction::West
    }
}

/// The bytes that stand for a direction, and the direction each stands for.
pub open spec fn direction_of_byte(b: u8) -> Option<Direction> {
    if b == 78 || b == 85 || b == 94 || b == 51 || b == 3 {
        // 'N' 'U' '^' '3'
        Some(Direction::North)
    } else if b == 69 || b == 82 || b == 62 || b == 48 || b == 0 {
        // 'E' 'R' '>' '0'
        Some(Direction::East)
    } else if b == 83 || b == 68 || b == 118 || b == 49 || b == 1 {
        // 'S' 'D' 'v' '1'
        Some(Direction::South)
    } else if b == 87 || b == 76 || b == 60 || b == 50 || b == 2 {
        // 'W' 'L' '<' '2'
        Some(Direction::West)
    } else {
        None
    }
}

/// The number of a direction as used by the numeric representation:
/// east 0, south 1, west 2, north 3.
pub open spec fn number_of(d: Direction) -> int {
    (clockwise_index(d) + 3) % 4
}

/// The unit step of a direction, with y growing southwards.
pub open spec fn step_of(d: Direction) -> (int, int) {
    match d {
        Direction::North => (0, -1),
        Direction::East => (1, 0),
        Direction::South => (0, 1),
        Direction::West => (-1, 0),
    }
}

impl Direction {
    /// All four directions, clockwise from north.
    pub fn all() -> (r: [Direction; 4])
        ensures
            forall|i: int| 0 <= i < 4 ==> #[trigger] r[i] == direction_at(i),
    {
        [Direction::North, Direction::East, Direction::South, Direction::West]
    }

    /// Converts a byte into a direction; `N U ^ 3` and the number 3 are north,
    /// `E R > 0` and 0 east, `S D v 1` and 1 south, `W L < 2` and 2 west.
    pub fn from(value: u8) -> (r: Direction)
        requires
            direction_of_byte(value).is_some(),
        ensures
            Some(r) == direction_of_byte(value),
    {
        match value {
            78u8 | 85u8 | 94u8 | 51u8 | 3u8 => Direction::North,
            69u8 | 82u8 | 62u8 | 48u8 | 0u8 => Direction::East,
            83u8 | 68u8 | 118u8 | 49u8 | 1u8 => Direction::South,
            _ => Direction::West,
        }
    }

    /// Parses one direction character (`NESWURDL^>v<0123`) from the input.
    pub fn parse(input: &[u8]) -> (r: ParseResult<Direction>)
        ensures
            input.len() == 0 ==> r == Err::<(usize, Direction), ErrorKind>(ErrorKind::Eof),
            input.len() > 0 && input[0] >= 32 && direction_of_byte(input[0]).is_some()
                ==> r == Ok::<(usize, Direction), ErrorKind>((1, direction_of_byte(input[0]).unwrap())),
            input.len() > 0 && !(input[0] >= 32 && direction_of_byte(input[0]).is_some())
                ==> r == Err::<(usize, Direction), ErrorKind>(ErrorKind::OneOf),
    {
        if input.len() == 0 {
            return Err(ErrorKind::Eof);
        }
        let b = input[0];
        if b >= 32 && (b == 78 || b == 85 || b == 94 || b == 51 || b == 69 || b == 82 || b == 62
            || b == 48 || b == 83 || b == 68 || b == 118 || b == 49 || b == 87 || b == 76 || b
            == 60 || b == 50) {
            Ok((1, Direction::from(b)))
        } else {
            Err(ErrorKind::OneOf)
        }
    }

    /// The direction after a quarter turn counter-clockwise.
    pub fn turn_left(self) -> (r: Direction)
        ensures
            r == direction_at(clockwise_index(self) + 3),
    {
        match self {
            Direction::North => Direction::West,
            Direction::East => Direction::North,
            Direction::South => Direction::East,
            Direction::West => Direction::South,
        }
    }

    /// The direction after a quarter turn clockwise.
    pub fn turn_right(self) -> (r: Direction)
        ensures
            r == direction_at(clockwise_index(self) + 1),
    {
        match self {
            Direction::North => Direction::East,
            Direction::East => Direction::South,
            Direction::South => Direction::West,
            Direction::West => Direction::North,
        }
    }

    /// True for east and west.
    pub fn is_horizontal(self) -> (r: bool)
        ensures
            r == (clockwise_index(self) % 2 == 1),
    {
        matches!(self, Direction::East | Direction::West)
    }

    /// True for north and south.
    pub fn is_vertical(self) -> (r: bool)
        ensures
            r == (clockwise_index(self) % 2 == 0),
    {
        matches!(self, Direction::North | Direction::South)
    }

    /// The opposite direction.
    pub fn neg(self) -> (r: Direction)
        ensures
            r == direction_at(clockwise_index(self) + 2),
    {
        match self {
            Direction::North => Direction::South,
            Direction::East => Direction::West,
            Direction::South => Direction::North,
            Direction::West => Direction::East,
        }
    }

    /// The unit step of this direction; y grows towards the south.
    pub fn as_vec(self) -> (r: Vector<2, i32>)
        ensures
            r.coords[0] == step_of(self).0,
            r.coords[1] == step_of(self).1,
    {
        match self {
            Direction::North => vector2(0, -1),
            Direction::East => vector2(1, 0),
            Direction::South => vector2(0, 1),
            Direction::West => vector2(-1, 0),
        }
    }

    /// The numeric representation: east 0, south 1, west 2, north 3.
    pub fn as_number(self) -> (r: u8)
        ensures
            r == number_of(self),
    {
        match self {
            Direction::North => 3,
            Direction::East => 0,
            Direction::South => 1,
            Direction::West => 2,
        }
    }
}

/// Four quarter turns to one side bring a direction back, and a turn to the
/// left undoes a turn to the right.
pub proof fn lemma_turns(d: Direction)
    ensures
        direction_at(clockwise_index(direction_at(clockwise_index(d) + 1)) + 3) == d,
        direction_at(clockwise_index(direction_at(clockwise_index(d) + 3)) + 1) == d,
        direction_at(clockwise_index(direction_at(clockwise_index(d) + 1)) + 1)
            == direction_at(clockwise_index(d) + 2),
        direction_at(clockwise_index(direction_at(clockwise_index(d) + 2)) + 2) == d,
{
}

/// Turning right twice is the opposite direction, and the opposite of the
/// opposite is the direction itself; horizontal and vertical directions
/// exchange under a quarter turn.
pub proof fn lemma_opposite(d: Direction)
    ensures
        clockwise_index(direction_at(clockwise_index(d) + 2)) % 2 == clockwise_index(d) % 2,
        clockwise_index(direction_at(clockwise_index(d) + 1)) % 2 != clockwise_index(d) % 2,
        step_of(direction_at(clockwise_index(d) + 2)).0 == -step_of(d).0,
        step_of(direction_at(clockwise_index(d) + 2)).1 == -step_of(d).1,
{
}

/// A quarter turn clockwise rotates the unit step `(x, y)` into `(-y, x)`.
pub proof fn lemma_turn_right_rotates_step(d: Direction)
    ensures
        step_of(direction_at(clockwise_index(d) + 1)).0 == -step_of(d).1,
        step_of(direction_at(clockwise_index(d) + 1)).1 == step_of(d).0,
{
}

/// The numeric representation of a direction converts back into the same
/// direction.
pub proof fn lemma_number_round_trip(d: Direction)
    ensures
        0 <= number_of(d) < 4,
        direction_of_byte(number_of(d) as u8) == Some(d),
{
}

/// One of the eight compass directions.
#[derive(Copy, Clone, Debug, Hash, PartialEq, Eq, Structural)]
pub enum CardinalDirection {
    N,
    NE,
    E,
    SE,
    S,
    SW,
    W,
    NW,
}

/// The position of a compass direction when going round clockwise from north.
pub open spec fn compass_index(d: CardinalDirection) -> int {
    match d {
        CardinalDirection::N => 0,
        CardinalDirection::NE => 1,
        CardinalDirection::E => 2,
        CardinalDirection::SE => 3,
        CardinalDirection::S => 4,
        CardinalDirection::SW => 5,
        CardinalDirection::W => 6,
        CardinalDirection::NW => 7,
    }
}

/// The step of a compass direction, with y growing southwards.
pub open spec fn compass_step(d: CardinalDirection) -> (int, int) {
    match d {
        CardinalDirection::N => (0, -1),
        CardinalDirection::NE => (1, -1),
        CardinalDirection::E => (1, 0),
        CardinalDirection::SE => (1, 1),
        CardinalDirection::S => (0, 1),
        CardinalDirection::SW => (-1, 1),
        CardinalDirection::W => (-1, 0),
        CardinalDirection::NW => (-1, -1),
    }
}

impl CardinalDirection {
    /// All eight compass directions, clockwise from north.
    pub fn all() -> (r: [CardinalDirection; 8])
        ensures
            forall|i: int| 0 <= i < 8 ==> compass_index(#[trigger] r[i]) == i,
    {
        [
            CardinalDirection::N,
            CardinalDirection::NE,
            CardinalDirection::E,
            CardinalDirection::SE,
            CardinalDirection::S,
            CardinalDirection::SW,
            CardinalDirection::W,
            CardinalDirection::NW,
        ]
    }

    /// The step of this compass direction; y grows towards the south.
    pub fn as_vec(self) -> (r: Vector<2, i32>)
        ensures
            r.coords[0] == compass_step(self).0,
            r.coords[1] == compass_step(self).1,
    {
        match self {
            CardinalDirection::N => vector2(0, -1),
            CardinalDirection::NE => vector2(1, -1),
            CardinalDirection::E => vector2(1, 0),
            CardinalDirection::SE => vector2(1, 1),
            CardinalDirection::S => vector2(0, 1),
            CardinalDirection::SW => vector2(-1, 1),
            CardinalDirection::W => vector2(-1, 0),
            CardinalDirection::NW => vector2(-1, -1),
        }
    }

    /// The clockwise position from north, from 0 to 7.
    pub fn index(self) -> (r: usize)
        ensures
            r == compass_index(self),
    {
        match self {
            CardinalDirection::N => 0,
            CardinalDirection::NE => 1,
            CardinalDirection::E => 2,
            CardinalDirection::SE => 3,
            CardinalDirection::S => 4,
            CardinalDirection::SW => 5,
            CardinalDirection::W => 6,
            CardinalDirection::NW => 7,
        }
    }
}

/// The eight compass steps are pairwise different and none is zero.
pub proof fn lemma_compass_steps_distinct(a: CardinalDirection, b: CardinalDirection)
    ensures
        compass_step(a) == compass_step(b) <==> a == b,
        compass_step(a) != (0int, 0int),
{
}

} // verus!

//! Small world-layer value types: headings, grid coordinates and step
//! offsets. The world simulation around them (tiles, food, deaths) lives
//! outside this crate; these are the plain values its rules exchange with
//! an agent.

use vstd::prelude::*;

verus! {

/// A heading on the grid.
#[derive(Clone, Copy, PartialEq, Eq, Structural, Debug)]
pub enum Direction {
    Up,
    Down,
    Left,
    Right,
}

impl Direction {
    /// The heading after a quarter turn to the left.
    pub open spec fn spec_left(self) -> Direction {
        match self {
            Direction::Up => Direction::Left,
            Direction::Down => Direction::Right,
            Direction::Left => Direction::Down,
            Direction::Right => Direction::Up,
        }
    }

    /// The heading after a quarter turn to the right.
    pub open spec fn spec_right(self) -> Direction {
        match self {
            Direction::Up => Direction::Right,
            Direction::Down => Direction::Left,
            Direction::Left => Direction::Up,
            Direction::Right => Direction::Down,
        }
    }

    /// The opposite heading.
    pub open spec fn spec_opposite(self) -> Direction {
        match self {
            Direction::Up => Direction::Down,
            Direction::Down => Direction::Up,
            Direction::Left => Direction::Right,
            Direction::Right => Direction::Left,
        }
    }

    pub fn left(&self) -> (r: Direction)
        ensures
            r == self.spec_left(),
    {
        match self {
            Direction::Up => Direction::Left,
            Direction::Down => Direction::Right,
            Direction::Left => Direction::Down,
            Direction::Right => Direction::Up,
        }
    }

    pub fn right(&self) -> (r: Direction)
        ensures
            r == self.spec_right(),
    {
        match self {
            Direction::Up => Direction::Right,
            Direction::Down => Direction::Left,
            Direction::Left => Direction::Up,
            Direction::Right => Direction::Down,
        }
    }

    pub fn opposite(&self) -> (r: Direction)
        ensures
            r == self.spec_opposite(),
    {
        match self {
            Direction::Up => Direction::Down,
            Direction::Down => Direction::Up,
            Direction::Left => Direction::Right,
            Direction::Right => Direction::Left,
        }
    }
}

/// A grid position.
#[derive(Clone, Copy, PartialEq, Eq, Structural, Debug, Hash)]
pub struct Coord {
    pub x: usize,
    pub y: usize,
}

impl Coord {
    pub fn new(x: usize, y: usize) -> (r: Coord)
        ensures
            r == (Coord { x, y }),
    {
        Coord { x, y }
    }
}

/// A grid position, as the tile arena addresses it.
#[derive(Clone, Copy, PartialEq, Eq, Structural, Debug, Hash)]
pub struct Coordinate {
    pub x: usize,
    pub y: usize,
}

impl Coordinate {
    pub fn new(x: usize, y: usize) -> (r: Coordinate)
        ensures
            r == (Coordinate { x, y }),
    {
        Coordinate { x, y }
    }
}

/// The sign of a signed distance.
pub open spec fn spec_sign(d: int) -> int {
    if d > 0 {
        1
    } else if d < 0 {
        -1
    } else {
        0
    }
}

/// A straight-line displacement along one axis.
#[derive(Clone, Copy, PartialEq, Eq, Structural, Debug)]
pub enum Offset {
    X(isize),
    Y(isize),
}

impl Offset {
    /// The signed distance carried, whatever the axis.
    pub open spec fn spec_distance(self) -> isize {
        match self {
            Offset::X(d) => d,
            Offset::Y(d) => d,
        }
    }

    /// Whether the offset runs along the horizontal axis.
    pub open spec fn is_x(self) -> bool {
        self is X
    }

    pub fn new_x(distance: isize) -> (r: Offset)
        ensures
            r == Offset::X(distance),
    {
        Offset::X(distance)
    }

    pub fn new_y(distance: isize) -> (r: Offset)
        ensures
            r == Offset::Y(distance),
    {
        Offset::Y(distance)
    }

    /// The unit step of a heading: vertical headings move along y,
    /// horizontal ones along x; up and left are the negative directions.
    pub fn from_direction(direction: Direction) -> (r: Offset)
        ensures
            r == match direction {
                Direction::Up => Offset::Y(-1isize),
                Direction::Down => Offset::Y(1isize),
                Direction::Left => Offset::X(-1isize),
                Direction::Right => Offset::X(1isize),
            },
    {
        match direction {
            Direction::Up => Offset::Y(-1isize),
            Direction::Down => Offset::Y(1isize),
            Direction::Left => Offset::X(-1isize),
            Direction::Right => Offset::X(1isize),
        }
    }

    /// The signed distance of this offset.
    pub fn distance(&self) -> (r: isize)
        ensures
            r == self.spec_distance(),
    {
        match self {
            Offset::X(d) => *d,
            Offset::Y(d) => *d,
        }
    }

    /// Whether the offset moves nowhere.
    pub fn blank(&self) -> (r: bool)
        ensures
            r == (self.spec_distance() == 0),
    {
        match self {
            Offset::X(d) => *d == 0,
            Offset::Y(d) => *d == 0,
        }
    }

    /// Takes one unit step out of the offset: returns a unit (or zero)
    /// offset on the same axis carrying the distance's sign, and shortens
    /// the remaining distance by that step.
    pub fn signum(&mut self) -> (r: Offset)
        ensures
            final(self).is_x() == old(self).is_x(),
            r.is_x() == old(self).is_x(),
            r.spec_distance() == spec_sign(old(self).spec_distance() as int),
            final(self).spec_distance() == old(self).spec_distance() - r.spec_distance(),
    {
        match self {
            Offset::X(d) => {
                let s: isize = if *d > 0 {
                    1
                } else if *d < 0 {
                    -1
                } else {
                    0
                };
                *d = *d - s;
                Offset::X(s)
            },
            Offset::Y(d) => {
                let s: isize = if *d > 0 {
                    1
                } else if *d < 0 {
                    -1
                } else {
                    0
                };
                *d = *d - s;
                Offset::Y(s)
            },
        }
    }
}

} // verus!

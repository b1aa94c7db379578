use vstd::prelude::*;

use crate::pos::Pos;

verus! {

/// One of the four headings an actor can slide along.
#[derive(Clone, Copy, Debug, PartialEq, Eq, Structural, Hash)]
pub enum Direction {
    North,
    South,
    East,
    West,
}

impl Direction {
    pub open spec fn spec_icon(&self) -> Seq<char> {
        match self {
            Direction::North => "^"@,
            Direction::South => "v"@,
            Direction::East => ">"@,
            Direction::West => "<"@,
        }
    }

    /// One-character arrow for printing a route.
    pub fn icon(&self) -> (r: &'static str)
        ensures
            r@ == self.spec_icon(),
    {
        match self {
            Direction::North => "^",
            Direction::South => "v",
            Direction::East => ">",
            Direction::West => "<",
        }
    }

    /// The unit displacement of one cell of travel along this heading:
    /// `x` grows eastward, `y` southward.
    pub open spec fn spec_vector(&self) -> Pos {
        match self {
            Direction::North => Pos { x: 0, y: -1 as isize },
            Direction::South => Pos { x: 0, y: 1 },
            Direction::East => Pos { x: 1, y: 0 },
            Direction::West => Pos { x: -1 as isize, y: 0 },
        }
    }

    pub fn vector(&self) -> (r: Pos)
        ensures
            r == self.spec_vector(),
    {
        match self {
            Direction::North => Pos { x: 0, y: -1 },
            Direction::South => Pos { x: 0, y: 1 },
            Direction::East => Pos { x: 1, y: 0 },
            Direction::West => Pos { x: -1, y: 0 },
        }
    }

    pub open spec fn spec_reverse(&self) -> Direction {
        match self {
            Direction::North => Direction::South,
            Direction::South => Direction::North,
            Direction::East => Direction::West,
            Direction::West => Direction::East,
        }
    }

    pub fn reverse(&self) -> (r: Self)
        ensures
            r == self.spec_reverse(),
    {
        match self {
            Direction::North => Direction::South,
            Direction::South => Direction::North,
            Direction::East => Direction::West,
            Direction::West => Direction::East,
        }
    }

    /// The heading 90 degrees counterclockwise from this one.
    pub open spec fn spec_left(&self) -> Direction {
        match self {
            Direction::North => Direction::West,
            Direction::South => Direction::East,
            Direction::West => Direction::South,
            Direction::East => Direction::North,
        }
    }

    pub fn left(&self) -> (r: Self)
        ensures
            r == self.spec_left(),
    {
        match self {
            Direction::North => Direction::West,
            Direction::South => Direction::East,
            Direction::West => Direction::South,
            Direction::East => Direction::North,
        }
    }

    /// The heading 90 degrees clockwise from this one.
    pub open spec fn spec_right(&self) -> Direction {
        self.spec_left().spec_reverse()
    }

    pub fn right(&self) -> (r: Self)
        ensures
            r == self.spec_right(),
    {
        self.left().reverse()
    }

    /// Every heading once, in the fixed order north, east, south, west.
    pub fn all() -> (r: Vec<Direction>)
        ensures
            r@ == seq![Direction::North, Direction::East, Direction::South, Direction::West],
    {
        let mut r: Vec<Direction> = Vec::new();
        r.push(Direction::North);
        r.push(Direction::East);
        r.push(Direction::South);
        r.push(Direction::West);
        assert(r@ =~= seq![
            Direction::North,
            Direction::East,
            Direction::South,
            Direction::West,
        ]);
        r
    }
}

} // verus!

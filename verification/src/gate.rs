use vstd::prelude::*;

use crate::direction::Direction;
use crate::pos::Pos;

verus! {

/// A gate of a room: its border position and the direction an actor faces
/// when travelling inward through it.
#[derive(Clone, Copy, Debug, PartialEq, Eq, Structural)]
pub struct GateEntry {
    pub pos: Pos,
    pub inwards_direction: Direction,
}

impl GateEntry {
    /// The inward direction a border position implies on a grid of the given
    /// width: gates on the left face east, on the top south, on the right
    /// west, anywhere else north.
    pub open spec fn spec_direction_for(p: Pos, width: int) -> Direction {
        if p.x == 0 {
            Direction::East
        } else if p.y == 0 {
            Direction::South
        } else if p.x == width - 1 {
            Direction::West
        } else {
            Direction::North
        }
    }

    pub fn new(p: Pos, width: isize) -> (r: GateEntry)
        requires
            1 <= width,
        ensures
            r.pos == p,
            r.inwards_direction == GateEntry::spec_direction_for(p, width as int),
    {
        GateEntry {
            pos: p,
            inwards_direction: if p.x == 0 {
                Direction::East
            } else if p.y == 0 {
                Direction::South
            } else if p.x == width - 1 {
                Direction::West
            } else {
                Direction::North
            },
        }
    }

    /// This entry as it stands after the room turns 90 degrees
    /// counterclockwise: the position is re-indexed through the rotation and
    /// the inward direction turns with it.
    pub fn rotate_left(&self, width: isize) -> (r: GateEntry)
        requires
            isize::MIN < width,
            isize::MIN <= width - 1 - self.pos.x <= isize::MAX,
        ensures
            r.pos == self.pos.spec_rotate_left(width as int),
            r.inwards_direction == self.inwards_direction.spec_left(),
    {
        GateEntry {
            pos: self.pos.rotate_left(width),
            inwards_direction: self.inwards_direction.left(),
        }
    }
}

} // verus!

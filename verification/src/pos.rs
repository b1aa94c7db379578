use vstd::prelude::*;

verus! {

/// An integer coordinate on the grid: `x` grows eastward, `y` southward.
#[derive(Clone, Copy, Debug, PartialEq, Eq, Structural, Hash)]
pub struct Pos {
    pub x: isize,
    pub y: isize,
}

impl Pos {
    pub fn new(x: isize, y: isize) -> (p: Pos)
        ensures
            p == (Pos { x, y }),
    {
        Pos { x, y }
    }

    /// Checkerboard colour of the cell: true on cells whose coordinate sum
    /// is even.
    pub fn parity(&self) -> (r: bool)
        requires
            isize::MIN <= self.x + self.y <= isize::MAX,
        ensures
            r == ((self.x + self.y) % 2 == 0),
    {
        let s: isize = self.x + self.y;
        s % 2 == 0
    }

    /// Where this coordinate lands when a grid of the given width is rotated
    /// 90 degrees counterclockwise.
    pub fn rotate_left(self, width: isize) -> (r: Pos)
        requires
            isize::MIN < width,
            isize::MIN <= width - 1 - self.x <= isize::MAX,
        ensures
            r == self.spec_rotate_left(width as int),
    {
        Pos { x: self.y, y: width - 1 - self.x }
    }

    pub open spec fn spec_rotate_left(self, width: int) -> Pos {
        Pos { x: self.y, y: (width - 1 - self.x) as isize }
    }

    pub fn plus(self, rhs: Pos) -> (r: Pos)
        requires
            isize::MIN <= self.x + rhs.x <= isize::MAX,
            isize::MIN <= self.y + rhs.y <= isize::MAX,
        ensures
            r == (Pos { x: (self.x + rhs.x) as isize, y: (self.y + rhs.y) as isize }),
    {
        Pos { x: self.x + rhs.x, y: self.y + rhs.y }
    }

    pub fn minus(self, rhs: Pos) -> (r: Pos)
        requires
            isize::MIN <= self.x - rhs.x <= isize::MAX,
            isize::MIN <= self.y - rhs.y <= isize::MAX,
        ensures
            r == (Pos { x: (self.x - rhs.x) as isize, y: (self.y - rhs.y) as isize }),
    {
        Pos { x: self.x - rhs.x, y: self.y - rhs.y }
    }

    pub fn scaled(self, rhs: isize) -> (r: Pos)
        requires
            isize::MIN <= self.x * rhs <= isize::MAX,
            isize::MIN <= self.y * rhs <= isize::MAX,
        ensures
            r == (Pos { x: (self.x * rhs) as isize, y: (self.y * rhs) as isize }),
    {
        Pos { x: self.x * rhs, y: self.y * rhs }
    }

    /// The cell halfway between two coordinates, rounding toward the origin.
    pub fn midpoint(self, rhs: Pos) -> (r: Pos)
        requires
            0 <= self.x + rhs.x,
            0 <= self.y + rhs.y,
            self.x + rhs.x <= isize::MAX,
            self.y + rhs.y <= isize::MAX,
        ensures
            r == (Pos { x: ((self.x + rhs.x) / 2) as isize, y: ((self.y + rhs.y) / 2) as isize }),
    {
        Pos { x: (self.x + rhs.x) / 2, y: (self.y + rhs.y) / 2 }
    }
}

} // verus!

use vstd::prelude::*;

use crate::direction::Direction;
use crate::neighbour::Neighbour;
use crate::pos::Pos;
use crate::tile::Tile;
use crate::Cell;
use crate::LeftRotatable;

verus! {

/// Largest accepted side length of a grid.
pub const MAX_DIM: usize = 10000;

/// A rectangular grid of cells with bounds-checked access, stored row-major.
/// Its view is the sequence of its rows.
#[derive(Debug)]
pub struct Matrix<T> {
    pub cells: Vec<T>,
    pub width: usize,
    pub height: usize,
}

/// The grid of tile states a room is made of.
pub type TileMap = Matrix<Tile>;

impl<T> View for Matrix<T> {
    type V = Seq<Seq<T>>;

    open spec fn view(&self) -> Seq<Seq<T>> {
        Seq::new(
            self.height as nat,
            |y: int| Seq::new(self.width as nat, |x: int| self.cells@[y * (self.width as int) + x]),
        )
    }
}

/// A row-major flat index stays inside the grid's cell count.
pub proof fn lemma_grid_index(w: int, h: int, x: int, y: int)
    by (nonlinear_arith)
    requires
        0 <= x < w,
        0 <= y < h,
    ensures
        0 <= y * w,
        0 <= y * w + x,
        y * w + x < h * w,
        y * w + x < w * h,
{
}

/// The cell count of a bounded grid stays comfortably inside `usize`.
pub proof fn lemma_dims_product(w: int, h: int)
    by (nonlinear_arith)
    requires
        1 <= w <= 10000,
        1 <= h <= 10000,
    ensures
        1 <= w * h <= 100_000_000,
{
}

/// Pushing onto a sequence keeps every element it already contained, and
/// makes it contain the pushed element.
pub proof fn lemma_push_keeps_contains<A>(s: Seq<A>, e: A)
    ensures
        forall|q: A| s.contains(q) ==> #[trigger] s.push(e).contains(q),
        s.push(e).contains(e),
{
    assert(s.push(e)[s.len() as int] == e);
    assert forall|q: A| s.contains(q) implies s.push(e).contains(q) by {
        let i = choose|i: int| 0 <= i < s.len() && s[i] == q;
        assert(s.push(e)[i] == q);
    }
}

/// A column-major running index stays below the bound set by the columns
/// already emitted.
pub proof fn lemma_col_index_bound(h: int, a: int, b: int, x: int)
    by (nonlinear_arith)
    requires
        0 <= a < x,
        0 <= b < h,
    ensures
        0 <= a * h + b < x * h,
{
}

/// Distinct coordinates never share a row-major flat index.
pub proof fn lemma_grid_index_injective(w: int, x1: int, y1: int, x2: int, y2: int)
    by (nonlinear_arith)
    requires
        0 <= x1 < w,
        0 <= x2 < w,
        0 <= y1,
        0 <= y2,
        y1 * w + x1 == y2 * w + x2,
    ensures
        x1 == x2,
        y1 == y2,
{
}

impl<T> Matrix<T> {
    /// The representation holds exactly one cell for each coordinate of a
    /// non-degenerate rectangle.
    pub open spec fn wf(&self) -> bool {
        &&& self.cells@.len() == self.width * self.height
        &&& 1 <= self.width <= MAX_DIM
        &&& 1 <= self.height <= MAX_DIM
    }

    pub open spec fn spec_width(&self) -> int {
        self.width as int
    }

    pub open spec fn spec_height(&self) -> int {
        self.height as int
    }

    pub open spec fn spec_in_bounds(&self, p: Pos) -> bool {
        0 <= p.x < self.spec_width() && 0 <= p.y < self.spec_height()
    }

    /// The cell stored at an in-bounds coordinate.
    pub open spec fn cell(&self, p: Pos) -> T
        recommends
            self.spec_in_bounds(p),
    {
        self@[p.y as int][p.x as int]
    }

    pub fn get_width(&self) -> (r: isize)
        requires
            self.wf(),
        ensures
            r == self.spec_width(),
    {
        self.width as isize
    }

    pub fn get_height(&self) -> (r: isize)
        requires
            self.wf(),
        ensures
            r == self.spec_height(),
    {
        self.height as isize
    }

    pub fn in_bounds(&self, p: &Pos) -> (r: bool)
        requires
            self.wf(),
        ensures
            r == self.spec_in_bounds(*p),
    {
        p.x >= 0 && p.y >= 0 && p.x < self.get_width() && p.y < self.get_height()
    }

    /// Overwrites one in-bounds cell, leaving every other cell alone.
    pub fn set(&mut self, p: &Pos, val: T)
        requires
            old(self).wf(),
            old(self).spec_in_bounds(*p),
        ensures
            final(self).wf(),
            final(self).spec_width() == old(self).spec_width(),
            final(self).spec_height() == old(self).spec_height(),
            final(self)@ == old(self)@.update(
                p.y as int,
                old(self)@[p.y as int].update(p.x as int, val),
            ),
    {
        proof {
            lemma_grid_index(self.width as int, self.height as int, p.x as int, p.y as int);
            lemma_dims_product(self.width as int, self.height as int);
        }
        let idx: usize = (p.y as usize) * self.width + (p.x as usize);
        self.cells.set(idx, val);
        proof {
            let w = self.width as int;
            let h = self.height as int;
            let xx = p.x as int;
            let yy = p.y as int;
            assert forall|y: int, x: int|
                #![trigger old(self).cells@[y * w + x]]
                0 <= y < h && 0 <= x < w && !(y == yy && x == xx) implies old(self).cells@[y * w + x]
                == final(self).cells@[y * w + x] by {
                lemma_grid_index(w, h, x, y);
                if y * w + x == yy * w + xx {
                    lemma_grid_index_injective(w, x, y, xx, yy);
                }
            }
            assert(final(self)@ =~~= old(self)@.update(yy, old(self)@[yy].update(xx, val)));
        }
    }

}

impl<T: Cell> Matrix<T> {
    /// What a query at any coordinate hands back: the stored cell inside the
    /// bounds, the blank sentinel outside them.
    pub open spec fn cell_or_blank(&self, p: Pos) -> T {
        if self.spec_in_bounds(p) {
            self.cell(p)
        } else {
            T::spec_blank()
        }
    }

    /// A fresh grid of the given size with every cell blank.
    pub fn new(width: isize, height: isize) -> (r: Matrix<T>)
        requires
            1 <= width <= MAX_DIM,
            1 <= height <= MAX_DIM,
        ensures
            r.wf(),
            r.spec_width() == width,
            r.spec_height() == height,
            forall|p: Pos| r.spec_in_bounds(p) ==> r.cell(p) == T::spec_blank(),
    {
        let w = width as usize;
        let h = height as usize;
        proof {
            lemma_dims_product(w as int, h as int);
        }
        let total: usize = w * h;
        let mut cells: Vec<T> = Vec::new();
        let mut i: usize = 0;
        while i < total
            invariant
                i <= total,
                total == w * h,
                cells@.len() == i,
                forall|j: int| 0 <= j < i ==> cells@[j] == T::spec_blank(),
            decreases total - i,
        {
            cells.push(T::blank());
            i = i + 1;
        }
        let r = Matrix { cells, width: w, height: h };
        proof {
            assert forall|p: Pos| r.spec_in_bounds(p) implies r.cell(p) == T::spec_blank() by {
                lemma_grid_index(w as int, h as int, p.x as int, p.y as int);
            }
        }
        r
    }

    /// Removes the bottom row of the grid.
    pub fn pop_row(&mut self)
        requires
            old(self).wf(),
            old(self).spec_height() >= 2,
        ensures
            final(self).wf(),
            final(self).spec_width() == old(self).spec_width(),
            final(self).spec_height() == old(self).spec_height() - 1,
            final(self)@ == old(self)@.take(old(self).spec_height() - 1),
    {
        proof {
            lemma_dims_product(self.width as int, self.height as int);
            lemma_grid_index(
                self.width as int,
                self.height as int,
                self.width as int - 1,
                self.height as int - 1,
            );
        }
        let new_len: usize = self.cells.len() - self.width;
        self.cells.truncate(new_len);
        self.height = self.height - 1;
        proof {
            let ghost hh = self.height as int;
            let ghost oh = old(self).height as int;
            let ghost ww = self.width as int;
            assert(hh * ww + ww == oh * ww) by (nonlinear_arith)
                requires
                    hh == oh - 1,
                    oh >= 1,
            ;
            assert forall|y: int, x: int|
                #![trigger self.cells@[y * (self.width as int) + x]]
                0 <= y < self.height as int && 0 <= x < self.width as int implies self.cells@[y
                * (self.width as int) + x] == old(self).cells@[y * (self.width as int) + x] by {
                lemma_grid_index(self.width as int, self.height as int, x, y);
            }
            assert(self@ =~~= old(self)@.take(old(self).spec_height() - 1));
        }
    }

    /// The cell at an in-bounds coordinate pair; the caller vouches for the
    /// bounds.
    pub fn atxy(&self, x: isize, y: isize) -> (r: T)
        requires
            self.wf(),
            0 <= x < self.spec_width(),
            0 <= y < self.spec_height(),
        ensures
            r == self.cell(Pos { x, y }),
    {
        proof {
            lemma_grid_index(self.width as int, self.height as int, x as int, y as int);
            lemma_dims_product(self.width as int, self.height as int);
        }
        let idx: usize = (y as usize) * self.width + (x as usize);
        self.cells[idx].duplicate()
    }

    /// Bounds-checked read: in-bounds coordinates give the stored cell, any
    /// other coordinate gives the blank sentinel.
    pub fn at(&self, p: &Pos) -> (r: T)
        requires
            self.wf(),
        ensures
            r == self.cell_or_blank(*p),
    {
        if self.in_bounds(p) {
            proof {
                lemma_grid_index(self.width as int, self.height as int, p.x as int, p.y as int);
                lemma_dims_product(self.width as int, self.height as int);
            }
            let idx: usize = (p.y as usize) * self.width + (p.x as usize);
            self.cells[idx].duplicate()
        } else {
            T::blank()
        }
    }

    /// The eight cells around a coordinate plus the coordinate's own,
    /// sampled with bounds-checked reads.
    pub fn neighbour_at(&self, p: &Pos) -> (r: Neighbour<T>)
        requires
            self.wf(),
            self.spec_in_bounds(*p),
        ensures
            r.center == self.cell_or_blank(*p),
            r.north == self.cell_or_blank(Pos { x: p.x, y: (p.y - 1) as isize }),
            r.south == self.cell_or_blank(Pos { x: p.x, y: (p.y + 1) as isize }),
            r.east == self.cell_or_blank(Pos { x: (p.x + 1) as isize, y: p.y }),
            r.west == self.cell_or_blank(Pos { x: (p.x - 1) as isize, y: p.y }),
            r.northwest == self.cell_or_blank(
                Pos { x: (p.x - 1) as isize, y: (p.y - 1) as isize },
            ),
            r.northeast == self.cell_or_blank(
                Pos { x: (p.x + 1) as isize, y: (p.y - 1) as isize },
            ),
            r.southwest == self.cell_or_blank(
                Pos { x: (p.x - 1) as isize, y: (p.y + 1) as isize },
            ),
            r.southeast == self.cell_or_blank(
                Pos { x: (p.x + 1) as isize, y: (p.y + 1) as isize },
            ),
    {
        let north = Direction::North.vector();
        let south = Direction::South.vector();
        let east = Direction::East.vector();
        let west = Direction::West.vector();
        Neighbour {
            center: self.at(p),
            north: self.at(&p.plus(north)),
            south: self.at(&p.plus(south)),
            east: self.at(&p.plus(east)),
            west: self.at(&p.plus(west)),
            northwest: self.at(&p.plus(north).plus(west)),
            northeast: self.at(&p.plus(north).plus(east)),
            southwest: self.at(&p.plus(south).plus(west)),
            southeast: self.at(&p.plus(south).plus(east)),
        }
    }

    /// Every coordinate of the grid, column by column.
    pub fn all_pos(&self) -> (r: Vec<Pos>)
        requires
            self.wf(),
        ensures
            r@.len() == self.spec_width() * self.spec_height(),
            forall|x: int, y: int|
                #![trigger r@[x * self.spec_height() + y]]
                0 <= x < self.spec_width() && 0 <= y < self.spec_height() ==> r@[x
                    * self.spec_height() + y] == (Pos { x: x as isize, y: y as isize }),
    {
        let w = self.get_width();
        let h = self.get_height();
        let mut r: Vec<Pos> = Vec::new();
        let mut x: isize = 0;
        while x < w
            invariant
                0 <= x <= w,
                w == self.spec_width(),
                h == self.spec_height(),
                1 <= h <= MAX_DIM,
                1 <= w <= MAX_DIM,
                r@.len() == x * h,
                forall|a: int, b: int|
                    #![trigger r@[a * h + b]]
                    0 <= a < x && 0 <= b < h ==> r@[a * h + b] == (Pos {
                        x: a as isize,
                        y: b as isize,
                    }),
            decreases w - x,
        {
            let mut y: isize = 0;
            while y < h
                invariant
                    0 <= y <= h,
                    0 <= x < w,
                    w == self.spec_width(),
                    h == self.spec_height(),
                    1 <= h <= MAX_DIM,
                    1 <= w <= MAX_DIM,
                    r@.len() == x * h + y,
                    forall|a: int, b: int|
                        #![trigger r@[a * h + b]]
                        0 <= a < x && 0 <= b < h ==> r@[a * h + b] == (Pos {
                            x: a as isize,
                            y: b as isize,
                        }),
                    forall|b: int|
                        #![trigger r@[x * h + b]]
                        0 <= b < y ==> r@[x * h + b] == (Pos { x: x as isize, y: b as isize }),
                decreases h - y,
            {
                r.push(Pos::new(x, y));
                proof {
                    assert forall|a: int, b: int|
                        #![trigger r@[a * h + b]]
                        0 <= a < x && 0 <= b < h implies r@[a * h + b] == (Pos {
                        x: a as isize,
                        y: b as isize,
                    }) by {
                        lemma_col_index_bound(h as int, a, b, x as int);
                    }
                }
                y = y + 1;
            }
            proof {
                assert((x as int + 1) * (h as int) == x as int * h as int + h as int)
                    by (nonlinear_arith);
            }
            x = x + 1;
            proof {
                assert forall|a: int, b: int|
                    #![trigger r@[a * h + b]]
                    0 <= a < x && 0 <= b < h implies r@[a * h + b] == (Pos {
                    x: a as isize,
                    y: b as isize,
                }) by {
                    lemma_col_index_bound(h as int, a, b, x as int);
                }
            }
        }
        r
    }

    /// Every coordinate strictly inside the border, column by column, each
    /// exactly once.
    pub fn all_inner_pos(&self) -> (r: Vec<Pos>)
        requires
            self.wf(),
        ensures
            forall|k: int| 0 <= k < r@.len() ==> self.spec_in_bounds(#[trigger] r@[k]),
            forall|k: int|
                0 <= k < r@.len() ==> 1 <= (#[trigger] r@[k]).x < self.spec_width() - 1 && 1
                    <= r@[k].y < self.spec_height() - 1,
            forall|x: int, y: int|
                #![trigger r@.contains(Pos { x: x as isize, y: y as isize })]
                1 <= x < self.spec_width() - 1 && 1 <= y < self.spec_height() - 1 ==> r@.contains(
                    Pos { x: x as isize, y: y as isize },
                ),
            forall|k1: int, k2: int|
                0 <= k1 < k2 < r@.len() ==> #[trigger] r@[k1] != #[trigger] r@[k2],
    {
        let w = self.get_width();
        let h = self.get_height();
        let mut r: Vec<Pos> = Vec::new();
        let mut x: isize = 1;
        while x < w - 1
            invariant
                1 <= x <= vstd::math::max(w as int - 1, 1),
                w == self.spec_width(),
                h == self.spec_height(),
                1 <= h <= MAX_DIM,
                1 <= w <= MAX_DIM,
                forall|k: int| 0 <= k < r@.len() ==> 1 <= (#[trigger] r@[k]).x < w - 1 && 1 <= r@[k].y < h - 1,
                forall|k: int| 0 <= k < r@.len() ==> (#[trigger] r@[k]).x < x,
                forall|k1: int, k2: int|
                    0 <= k1 < k2 < r@.len() ==> #[trigger] r@[k1] != #[trigger] r@[k2],
                forall|a: int, b: int|
                    #![trigger r@.contains(Pos { x: a as isize, y: b as isize })]
                    1 <= a < x && 1 <= b < h - 1 ==> r@.contains(
                        Pos { x: a as isize, y: b as isize },
                    ),
            decreases w - x,
        {
            let mut y: isize = 1;
            while y < h - 1
                invariant
                    1 <= y <= vstd::math::max(h as int - 1, 1),
                    1 <= x < w - 1,
                    w == self.spec_width(),
                    h == self.spec_height(),
                    1 <= h <= MAX_DIM,
                    1 <= w <= MAX_DIM,
                    forall|k: int| 0 <= k < r@.len() ==> 1 <= (#[trigger] r@[k]).x < w - 1 && 1 <= r@[k].y < h - 1,
                    forall|k: int|
                        0 <= k < r@.len() ==> (#[trigger] r@[k]).x < x || ((#[trigger] r@[k]).x
                            == x && r@[k].y < y),
                    forall|k1: int, k2: int|
                        0 <= k1 < k2 < r@.len() ==> #[trigger] r@[k1] != #[trigger] r@[k2],
                    forall|a: int, b: int|
                        #![trigger r@.contains(Pos { x: a as isize, y: b as isize })]
                        1 <= a < x && 1 <= b < h - 1 ==> r@.contains(
                            Pos { x: a as isize, y: b as isize },
                        ),
                    forall|b: int|
                        #![trigger r@.contains(Pos { x: x as isize, y: b as isize })]
                        1 <= b < y ==> r@.contains(Pos { x: x as isize, y: b as isize }),
                decreases h - y,
            {
                let ghost prev = r@;
                r.push(Pos::new(x, y));
                proof {
                    lemma_push_keeps_contains(prev, Pos { x, y });
                }
                y = y + 1;
            }
            x = x + 1;
        }
        r
    }

    /// A fresh grid holding, for each cell, the image of the original cell
    /// under the given function.
    pub fn map<B: Cell, F: Fn(T) -> B>(self, f: F) -> (r: Matrix<B>)
        requires
            self.wf(),
            forall|t: T| call_requires(f, (t,)),
        ensures
            r.wf(),
            r.spec_width() == self.spec_width(),
            r.spec_height() == self.spec_height(),
            forall|p: Pos|
                r.spec_in_bounds(p) ==> call_ensures(f, (self.cell(p),), #[trigger] r.cell(p)),
    {
        let total: usize = self.cells.len();
        let mut out: Vec<B> = Vec::new();
        let mut i: usize = 0;
        while i < total
            invariant
                i <= total,
                total == self.cells@.len(),
                out@.len() == i,
                forall|t: T| call_requires(f, (t,)),
                forall|j: int|
                    0 <= j < i ==> call_ensures(f, (self.cells@[j],), #[trigger] out@[j]),
            decreases total - i,
        {
            let v = f(self.cells[i].duplicate());
            out.push(v);
            i = i + 1;
        }
        let r = Matrix { cells: out, width: self.width, height: self.height };
        proof {
            assert forall|p: Pos| r.spec_in_bounds(p) implies call_ensures(
                f,
                (self.cell(p),),
                #[trigger] r.cell(p),
            ) by {
                lemma_grid_index(
                    self.width as int,
                    self.height as int,
                    p.x as int,
                    p.y as int,
                );
            }
        }
        r
    }

    /// The grid turned 90 degrees counterclockwise, each cell carried along
    /// unchanged: the cell at `(x, y)` moves to `(y, width - 1 - x)`.
    pub fn rotate_left_keeping_elements(&self) -> (r: Matrix<T>)
        requires
            self.wf(),
        ensures
            r.wf(),
            r.spec_width() == self.spec_height(),
            r.spec_height() == self.spec_width(),
            forall|x: int, y: int|
                0 <= x < self.spec_width() && 0 <= y < self.spec_height() ==> r@[self.spec_width()
                    - 1 - x][y] == self@[y][x],
    {
        let w = self.get_width();
        let h = self.get_height();
        let mut r: Matrix<T> = Matrix::new(h, w);
        let mut x: isize = 0;
        while x < w
            invariant
                0 <= x <= w,
                w == self.spec_width(),
                h == self.spec_height(),
                self.wf(),
                r.wf(),
                r.spec_width() == h,
                r.spec_height() == w,
                forall|a: int, b: int|
                    0 <= a < x && 0 <= b < h ==> r@[w - 1 - a][b] == self@[b][a],
            decreases w - x,
        {
            let mut y: isize = 0;
            while y < h
                invariant
                    0 <= y <= h,
                    0 <= x < w,
                    w == self.spec_width(),
                    h == self.spec_height(),
                    self.wf(),
                    r.wf(),
                    r.spec_width() == h,
                    r.spec_height() == w,
                    forall|a: int, b: int|
                        0 <= a < x && 0 <= b < h ==> r@[w - 1 - a][b] == self@[b][a],
                    forall|b: int| 0 <= b < y ==> r@[w - 1 - x][b] == self@[b][x as int],
                decreases h - y,
            {
                let p = Pos::new(x, y);
                let v = self.atxy(x, y);
                r.set(&p.rotate_left(w), v);
                y = y + 1;
            }
            x = x + 1;
        }
        r
    }
}

impl<T: Cell + LeftRotatable> Matrix<T> {
    /// The grid turned 90 degrees counterclockwise, each cell itself rotated
    /// in step.
    pub fn rotate_left(&self) -> (r: Matrix<T>)
        requires
            self.wf(),
        ensures
            r.wf(),
            r.spec_width() == self.spec_height(),
            r.spec_height() == self.spec_width(),
            forall|x: int, y: int|
                0 <= x < self.spec_width() && 0 <= y < self.spec_height() ==> r@[self.spec_width()
                    - 1 - x][y] == self@[y][x].spec_rotate_left(),
    {
        let w = self.get_width();
        let h = self.get_height();
        let mut r: Matrix<T> = Matrix::new(h, w);
        let mut x: isize = 0;
        while x < w
            invariant
                0 <= x <= w,
                w == self.spec_width(),
                h == self.spec_height(),
                self.wf(),
                r.wf(),
                r.spec_width() == h,
                r.spec_height() == w,
                forall|a: int, b: int|
                    0 <= a < x && 0 <= b < h ==> r@[w - 1 - a][b] == self@[b][a].spec_rotate_left(),
            decreases w - x,
        {
            let mut y: isize = 0;
            while y < h
                invariant
                    0 <= y <= h,
                    0 <= x < w,
                    w == self.spec_width(),
                    h == self.spec_height(),
                    self.wf(),
                    r.wf(),
                    r.spec_width() == h,
                    r.spec_height() == w,
                    forall|a: int, b: int|
                        0 <= a < x && 0 <= b < h ==> r@[w - 1 - a][b] == self@[b][a].spec_rotate_left(),
                    forall|b: int|
                        0 <= b < y ==> r@[w - 1 - x][b] == self@[b][x as int].spec_rotate_left(),
                decreases h - y,
            {
                let p = Pos::new(x, y);
                let v = self.atxy(x, y).rotate_left();
                r.set(&p.rotate_left(w), v);
                y = y + 1;
            }
            x = x + 1;
        }
        r
    }
}

impl Clone for Matrix<Tile> {
    fn clone(&self) -> (r: Self)
        ensures
            r@ == self@,
            r.wf() == self.wf(),
            r.spec_width() == self.spec_width(),
            r.spec_height() == self.spec_height(),
    {
        let cells = self.cells.clone();
        proof {
            assert forall|i: int| 0 <= i < self.cells@.len() implies cells@[i]
                == self.cells@[i] by {
                assert(cloned(self.cells@[i], cells@[i]));
            }
            assert(cells@ =~= self.cells@);
        }
        let r = Matrix { cells, width: self.width, height: self.height };
        proof {
            assert(r@ =~~= self@);
        }
        r
    }
}

/// Whether the list of highlighted positions holds the given one.
fn highlight_contains(highlight: &Vec<Pos>, p: &Pos) -> (r: bool)
    ensures
        r == highlight@.contains(*p),
{
    let mut i: usize = 0;
    while i < highlight.len()
        invariant
            i <= highlight@.len(),
            forall|j: int| 0 <= j < i ==> highlight@[j] != *p,
        decreases highlight@.len() - i,
    {
        if highlight[i].x == p.x && highlight[i].y == p.y {
            return true;
        }
        i = i + 1;
    }
    false
}

impl Matrix<Tile> {
    /// Writes the grid to standard output, one symbol per cell, marking the
    /// highlighted positions.
    pub fn print(&self, highlight: Vec<Pos>)
        requires
            self.wf(),
    {
        let h = self.get_height();
        let w = self.get_width();
        let mut y: isize = 0;
        while y < h
            invariant
                0 <= y <= h,
                self.wf(),
                w == self.spec_width(),
                h == self.spec_height(),
            decreases h - y,
        {
            let mut x: isize = 0;
            while x < w
                invariant
                    0 <= x <= w,
                    0 <= y < h,
                    self.wf(),
                    w == self.spec_width(),
                    h == self.spec_height(),
                decreases w - x,
            {
                if highlight_contains(&highlight, &Pos::new(x, y)) {
                    crate::io::emit_text(". ");
                } else {
                    let t = self.atxy(x, y);
                    crate::io::emit_text(t.symbol());
                    crate::io::emit_text(" ");
                }
                x = x + 1;
            }
            crate::io::emit_newline();
            y = y + 1;
        }
    }
}

} // verus!

use vstd::prelude::*;

use crate::direction::Direction;
use crate::gate::GateEntry;
use crate::matrix::TileMap;
use crate::metadata::{dest_eq, label_eq, GateDestination, GateMetadata};
use crate::board_description::BoardDescription;
use crate::pos::Pos;
use crate::rng::random_below;
use crate::tile::Tile;
use crate::LeftRotatable;

verus! {

/// A unit displacement along one of the four headings.
pub open spec fn unit_vec(dx: int, dy: int) -> bool {
    ||| (dx == 1 && dy == 0)
    ||| (dx == -1 && dy == 0)
    ||| (dx == 0 && dy == 1)
    ||| (dx == 0 && dy == -1)
}

/// A bounds-tolerant read of a grid view with the given dimensions:
/// out-of-range coordinates read as `Outside`.
pub open spec fn gview_at(m: Seq<Seq<Tile>>, w: int, h: int, x: int, y: int) -> Tile {
    if 0 <= x < w && 0 <= y < h {
        m[y][x]
    } else {
        Tile::Outside
    }
}

/// A grid view with one cell overwritten.
pub open spec fn gview_set(m: Seq<Seq<Tile>>, x: int, y: int, t: Tile) -> Seq<Seq<Tile>> {
    m.update(y, m[y].update(x, t))
}

/// How many cells lie ahead of a coordinate before the grid edge along a
/// unit heading; the bound on how far a cascade can still travel.
pub open spec fn cascade_measure(w: int, h: int, x: int, y: int, dx: int, dy: int) -> int {
    if dx > 0 {
        w + 1 - x
    } else if dx < 0 {
        x + 1
    } else if dy > 0 {
        h + 1 - y
    } else {
        y + 1
    }
}

/// The grid after a struck box at `(x, y)` slides along `(dx, dy)`: the box
/// rides over ice until it meets a non-ice cell; a box met on the way is
/// itself struck and slides on ahead.
pub open spec fn spec_cascade(m: Seq<Seq<Tile>>, w: int, h: int, x: int, y: int, dx: int, dy: int) -> Seq<
    Seq<Tile>,
>
    decreases cascade_measure(w, h, x, y, dx, dy),
    when unit_vec(dx, dy) && cascade_measure(w, h, x, y, dx, dy) >= 0
{
    let nx = x + dx;
    let ny = y + dy;
    let m1 = if gview_at(m, w, h, nx, ny) is Ice {
        spec_cascade(
            gview_set(gview_set(m, nx, ny, Tile::Box), x, y, Tile::Ice),
            w,
            h,
            nx,
            ny,
            dx,
            dy,
        )
    } else {
        m
    };
    if gview_at(m1, w, h, nx, ny) is Box {
        spec_cascade(m1, w, h, nx, ny, dx, dy)
    } else {
        m1
    }
}

/// A room: the tile grid and its gates, each gate sitting on a grid cell.
#[derive(Debug)]
pub struct Board {
    pub map: TileMap,
    pub gates: Vec<GateEntry>,
}

impl Clone for Board {
    fn clone(&self) -> (r: Self)
        ensures
            r.map@ == self.map@,
            r.map.wf() == self.map.wf(),
            r.map.spec_width() == self.map.spec_width(),
            r.map.spec_height() == self.map.spec_height(),
            r.gates@ == self.gates@,
            r.wf() == self.wf(),
    {
        let map = self.map.clone();
        let gates = self.gates.clone();
        proof {
            assert forall|i: int| 0 <= i < self.gates@.len() implies gates@[i]
                == self.gates@[i] by {
                assert(cloned(self.gates@[i], gates@[i]));
            }
            assert(gates@ =~= self.gates@);
        }
        Board { map, gates }
    }
}

impl Board {
    /// The grid is well-formed and every gate sits on it.
    pub open spec fn wf(&self) -> bool {
        &&& self.map.wf()
        &&& forall|i: int|
            0 <= i < self.gates@.len() ==> self.map.spec_in_bounds(
                (#[trigger] self.gates@[i]).pos,
            )
    }

    pub fn get_gate_direction(&self, gate_id: usize) -> (r: Direction)
        requires
            gate_id < self.gates@.len(),
        ensures
            r == self.gates@[gate_id as int].inwards_direction,
    {
        self.gates[gate_id].inwards_direction
    }

    pub fn get_gate_position(&self, gate_id: usize) -> (r: Pos)
        requires
            gate_id < self.gates@.len(),
        ensures
            r == self.gates@[gate_id as int].pos,
    {
        self.gates[gate_id].pos
    }

    /// The destination the identified gate leads to, if that gate exists and
    /// its tile is an exit gate.
    pub open spec fn spec_gate_destination(&self, gate_id: int) -> Option<GateDestination> {
        if 0 <= gate_id < self.gates@.len() {
            match self.map.cell_or_blank(self.gates@[gate_id].pos) {
                Tile::Gate(GateMetadata::Exit { destination, .. }) => Option::Some(destination),
                _ => Option::None,
            }
        } else {
            Option::None
        }
    }

    pub fn get_gate_destination(&self, gate_id: usize) -> (r: Option<GateDestination>)
        requires
            self.map.wf(),
        ensures
            match (r, self.spec_gate_destination(gate_id as int)) {
                (Option::Some(a), Option::Some(b)) => dest_eq(a, b),
                (Option::None, Option::None) => true,
                _ => false,
            },
    {
        match self.gates.get(gate_id) {
            Option::Some(gate_entry) => {
                match self.map.at(&gate_entry.pos) {
                    Tile::Gate(GateMetadata::Exit { destination, .. }) => {
                        Option::Some(destination)
                    },
                    _ => Option::None,
                }
            },
            Option::None => Option::None,
        }
    }

    /// The label of the identified gate, if that gate exists, is an exit,
    /// and carries one.
    pub open spec fn spec_gate_label(&self, gate_id: int) -> Option<String> {
        if 0 <= gate_id < self.gates@.len() {
            match self.map.cell_or_blank(self.gates@[gate_id].pos) {
                Tile::Gate(GateMetadata::Exit { label, .. }) => label,
                _ => Option::None,
            }
        } else {
            Option::None
        }
    }

    pub fn get_gate_label(&self, gate_id: usize) -> (r: Option<String>)
        requires
            self.map.wf(),
        ensures
            label_eq(r, self.spec_gate_label(gate_id as int)),
    {
        match self.gates.get(gate_id) {
            Option::Some(gate_entry) => {
                match self.map.at(&gate_entry.pos) {
                    Tile::Gate(GateMetadata::Exit { label, .. }) => label,
                    _ => Option::None,
                }
            },
            Option::None => Option::None,
        }
    }

    /// The index of the first gate standing on the given position.
    pub fn get_gate_id_by_pos(&self, p: Pos) -> (r: Option<usize>)
        ensures
            match r {
                Option::Some(i) => {
                    &&& i < self.gates@.len()
                    &&& self.gates@[i as int].pos == p
                    &&& forall|j: int| 0 <= j < i ==> (#[trigger] self.gates@[j]).pos != p
                },
                Option::None => forall|j: int|
                    0 <= j < self.gates@.len() ==> (#[trigger] self.gates@[j]).pos != p,
            },
    {
        let mut i: usize = 0;
        while i < self.gates.len()
            invariant
                i <= self.gates@.len(),
                forall|j: int| 0 <= j < i ==> (#[trigger] self.gates@[j]).pos != p,
            decreases self.gates@.len() - i,
        {
            if self.gates[i].pos.x == p.x && self.gates[i].pos.y == p.y {
                return Option::Some(i);
            }
            i = i + 1;
        }
        Option::None
    }

    /// Slides the struck box at the given position along the heading,
    /// cascading exactly as `spec_cascade` describes.
    pub fn box_cascade(&mut self, moved_ice_cube: &Pos, direction: &Direction)
        requires
            old(self).wf(),
            old(self).map.cell_or_blank(*moved_ice_cube) is Box,
        ensures
            final(self).wf(),
            final(self).map.spec_width() == old(self).map.spec_width(),
            final(self).map.spec_height() == old(self).map.spec_height(),
            final(self).gates@ == old(self).gates@,
            final(self).map@ == spec_cascade(
                old(self).map@,
                old(self).map.spec_width(),
                old(self).map.spec_height(),
                moved_ice_cube.x as int,
                moved_ice_cube.y as int,
                direction.spec_vector().x as int,
                direction.spec_vector().y as int,
            ),
        decreases cascade_measure(
            old(self).map.spec_width(),
            old(self).map.spec_height(),
            moved_ice_cube.x as int,
            moved_ice_cube.y as int,
            direction.spec_vector().x as int,
            direction.spec_vector().y as int,
        ),
    {
        let next_pos = moved_ice_cube.plus(direction.vector());

        if matches!(self.map.at(&next_pos), Tile::Ice) {
            self.map.set(&next_pos, Tile::Box);
            self.map.set(moved_ice_cube, Tile::Ice);
            self.box_cascade(&next_pos, direction);
        }

        if matches!(self.map.at(&next_pos), Tile::Box) {
            self.box_cascade(&next_pos, direction);
        }
    }

    /// The room turned 90 degrees counterclockwise: the grid is re-indexed
    /// through the rotation and each gate turns with it.
    pub fn rotate_left(self) -> (r: Self)
        requires
            self.wf(),
        ensures
            r.wf(),
            r.map.spec_width() == self.map.spec_height(),
            r.map.spec_height() == self.map.spec_width(),
            forall|x: int, y: int|
                0 <= x < self.map.spec_width() && 0 <= y < self.map.spec_height()
                    ==> r.map@[self.map.spec_width() - 1 - x][y]
                    == self.map@[y][x].spec_rotate_left(),
            r.gates@.len() == self.gates@.len(),
            forall|i: int|
                0 <= i < self.gates@.len() ==> (#[trigger] r.gates@[i]).pos == self.gates@[i].pos.spec_rotate_left(
                    self.map.spec_width(),
                ) && r.gates@[i].inwards_direction
                    == self.gates@[i].inwards_direction.spec_left(),
    {
        let width = self.map.get_width();
        let mut gates: Vec<GateEntry> = Vec::new();
        let mut i: usize = 0;
        while i < self.gates.len()
            invariant
                i <= self.gates@.len(),
                gates@.len() == i,
                self.wf(),
                width == self.map.spec_width(),
                forall|j: int|
                    0 <= j < i ==> (#[trigger] gates@[j]).pos == self.gates@[j].pos.spec_rotate_left(
                        width as int,
                    ) && gates@[j].inwards_direction
                        == self.gates@[j].inwards_direction.spec_left(),
            decreases self.gates@.len() - i,
        {
            let g = self.gates[i];
            gates.push(g.rotate_left(width));
            i = i + 1;
        }
        let map = self.map.rotate_left();
        let r = Board { map, gates };
        proof {
            assert forall|k: int| 0 <= k < r.gates@.len() implies r.map.spec_in_bounds(
                (#[trigger] r.gates@[k]).pos,
            ) by {
                assert(self.map.spec_in_bounds(self.gates@[k].pos));
            }
        }
        r
    }
}

/// A requested side length clamped into the machine range the generator
/// accepts.
pub open spec fn clamp_dim(v: int) -> int {
    if v < 1 {
        1
    } else if v > 1000 {
        1000
    } else {
        v
    }
}

/// Clamps a percentage range bound into the unit range.
fn clamp_pct(v: isize) -> (r: isize)
    ensures
        0 <= r <= 100,
        0 <= v <= 100 ==> r == v,
{
    if v < 0 {
        0
    } else if v > 100 {
        100
    } else {
        v
    }
}

/// Draws a value uniformly from the inclusive range, or the fallback when
/// the range is empty.
fn sample_range(lo: isize, hi: isize, fallback: isize) -> (r: isize)
    requires
        -100000 <= lo <= 100000,
        -100000 <= hi <= 100000,
        -100000 <= fallback <= 100000,
    ensures
        lo <= hi ==> lo <= r <= hi,
        lo > hi ==> r == fallback,
{
    if lo > hi {
        fallback
    } else {
        let n: usize = ((hi - lo) as usize) + 1;
        lo + (random_below(n) as isize)
    }
}

impl Board {
    /// Synthesizes a random room from the description: an ice interior
    /// behind a solid border, stamped with weak walls, pillars and boxes at
    /// the sampled densities and with a vignette of walls that favours the
    /// rim (a uniform draw against the squared distance from the centre),
    /// then carved and cleaned, with an east-facing entry gate on the left
    /// border and an exit gate on a randomly chosen other border.
    ///
    /// Degenerate size ranges that would not leave room for the gates are
    /// reported as a generation failure; a clamped range that admits only
    /// workable sizes is owed a room.
    #[verifier::loop_isolation(false)]
    #[verifier::rlimit(100)]
    pub fn new_random(desc: &BoardDescription) -> (r: Result<Self, String>)
        ensures
            match r {
                Result::Ok(b) => {
                    &&& b.wf()
                    &&& 7 <= b.map.spec_width() <= 1000
                    &&& 7 <= b.map.spec_height() <= 1000
                    &&& ({
                        let lo = clamp_dim(desc.size_range_min as int);
                        let hi = clamp_dim(desc.size_range_max as int);
                        &&& (lo <= hi ==> lo <= b.map.spec_width() <= hi && lo
                            <= b.map.spec_height() <= hi)
                        &&& (lo > hi ==> b.map.spec_width() == 10 && b.map.spec_height()
                            == 10)
                    })
                    &&& b.gates@.len() == 2
                    &&& b.gates@[0].pos.x == 0
                    &&& 3 <= b.gates@[0].pos.y <= b.map.spec_height() - 4
                    &&& b.gates@[0].inwards_direction == Direction::East
                    &&& ({
                        ||| (b.gates@[1].pos.y == 0 || b.gates@[1].pos.y
                            == b.map.spec_height() - 1) && 3 <= b.gates@[1].pos.x
                            <= b.map.spec_width() - 4
                        ||| b.gates@[1].pos.x == b.map.spec_width() - 1 && 3
                            <= b.gates@[1].pos.y <= b.map.spec_height() - 4
                    })
                    &&& b.map.cell(b.gates@[0].pos) == Tile::Gate(
                        crate::metadata::GateMetadata::EntryOnly,
                    )
                    &&& b.map.cell(b.gates@[1].pos) == Tile::Gate(
                        crate::metadata::GateMetadata::Exit {
                            destination: GateDestination::NextAutoGen,
                            label: Option::None,
                        },
                    )
                },
                Result::Err(_) => true,
            },
            ({
                let lo = clamp_dim(desc.size_range_min as int);
                let hi = clamp_dim(desc.size_range_max as int);
                (lo > hi || 7 <= lo) ==> r is Ok
            }),
    {
        let lo: isize = if desc.size_range_min < 1 {
            1
        } else if desc.size_range_min > 1000 {
            1000
        } else {
            desc.size_range_min
        };
        let hi: isize = if desc.size_range_max < 1 {
            1
        } else if desc.size_range_max > 1000 {
            1000
        } else {
            desc.size_range_max
        };
        let width = sample_range(lo, hi, 10);
        let height = sample_range(lo, hi, 10);
        if width < 7 || height < 7 {
            return Result::Err("degenerate room size".to_string());
        }

        let start = Pos::new(0, 3 + (random_below((height - 6) as usize) as isize));
        let start_direction = Direction::East;
        let end_side = random_below(3);
        let (end, end_direction) = if end_side == 0 {
            (Pos::new(3 + (random_below((width - 6) as usize) as isize), 0), Direction::South)
        } else if end_side == 1 {
            (
                Pos::new(3 + (random_below((width - 6) as usize) as isize), height - 1),
                Direction::North,
            )
        } else {
            (
                Pos::new(width - 1, 3 + (random_below((height - 6) as usize) as isize)),
                Direction::West,
            )
        };

        let mut map: TileMap = crate::matrix::Matrix::new(width, height);
        let mut x: isize = 0;
        while x < width
            invariant
                0 <= x <= width,
                map.wf(),
                map.spec_width() == width,
                map.spec_height() == height,
            decreases width - x,
        {
            let mut y: isize = 0;
            while y < height
                invariant
                    0 <= y <= height,
                    0 <= x < width,
                    map.wf(),
                    map.spec_width() == width,
                    map.spec_height() == height,
                decreases height - y,
            {
                let p = Pos::new(x, y);
                if x == 0 || y == 0 || x == width - 1 || y == height - 1 {
                    map.set(&p, Tile::Wall);
                } else {
                    map.set(&p, Tile::Ice);
                }
                y = y + 1;
            }
            x = x + 1;
        }

        proof {
            let wi = width as int;
            let hi = height as int;
            assert(0 <= (wi - 2) * (hi - 2) <= 1000000) by (nonlinear_arith)
                requires
                    7 <= wi <= 1000,
                    7 <= hi <= 1000,
            ;
        }
        let area: isize = (width - 2) * (height - 2);

        let mut feature: usize = 0;
        while feature < 3
            invariant
                feature <= 3,
                map.wf(),
                map.spec_width() == width,
                map.spec_height() == height,
                7 <= width <= 1000,
                7 <= height <= 1000,
                area == (width - 2) * (height - 2),
                0 <= area <= 1000000,
            decreases 3 - feature,
        {
            let (pct_min, pct_max, tile): (isize, isize, Tile) = if feature == 0 {
                (
                    desc.weak_walls_percentage_min,
                    desc.weak_walls_percentage_max,
                    Tile::WeakWall(1),
                )
            } else if feature == 1 {
                (desc.pilars_percentage_min, desc.pilars_percentage_max, Tile::Wall)
            } else {
                (desc.box_percentage_min, desc.box_percentage_max, Tile::Box)
            };
            feature = feature + 1;
            let percentage = clamp_pct(sample_range(clamp_pct(pct_min), clamp_pct(pct_max), 0));
            proof {
                assert(0 <= (area as int) * (percentage as int) <= 100000000) by (nonlinear_arith)
                    requires
                        0 <= area as int <= 1000000,
                        0 <= percentage as int <= 100,
                ;
            }
            let count: isize = area * percentage / 100;
            let mut stamped: isize = 0;
            while stamped < count
                invariant
                    map.wf(),
                    map.spec_width() == width,
                    map.spec_height() == height,
                    7 <= width <= 1000,
                    7 <= height <= 1000,
                decreases count - stamped,
            {
                let sx: isize = 1 + (random_below((width - 2) as usize) as isize);
                let sy: isize = 1 + (random_below((height - 2) as usize) as isize);
                map.set(&Pos::new(sx, sy), tile.clone());
                stamped = stamped + 1;
            }
        }

        let vignet_pct = clamp_pct(
            sample_range(
                clamp_pct(desc.vignet_percentage_min),
                clamp_pct(desc.vignet_percentage_max),
                0,
            ),
        );
        proof {
            let wi = width as int;
            let hi = height as int;
            assert(0 <= wi * hi <= 1000000 && (0 <= vignet_pct <= 100 ==> 0 <= wi * hi * (
            vignet_pct as int) <= 100000000)) by (nonlinear_arith)
                requires
                    7 <= wi <= 1000,
                    7 <= hi <= 1000,
            ;
        }
        let vignet: isize = width * height * vignet_pct / 100;
        let mut v: isize = 0;
        while v < vignet
            invariant
                map.wf(),
                map.spec_width() == width,
                map.spec_height() == height,
                7 <= width <= 1000,
                7 <= height <= 1000,
            decreases vignet - v,
        {
            let sx: isize = 1 + (random_below((width - 2) as usize) as isize);
            let sy: isize = 1 + (random_below((height - 2) as usize) as isize);
            let ax: isize = 2 * sx - width;
            let ay: isize = 2 * sy - height;
            proof {
                let wi = width as int;
                let hi = height as int;
                assert(0 <= (ax as int) * (ax as int) * 500 <= 500000000 && 1 <= wi * wi
                    <= 1000000 && 0 <= (ay as int) * (ay as int) * 500 <= 500000000 && 1 <= hi
                    * hi <= 1000000) by (nonlinear_arith)
                    requires
                        -1000 <= ax as int <= 1000,
                        -1000 <= ay as int <= 1000,
                        7 <= wi <= 1000,
                        7 <= hi <= 1000,
                ;
            }
            let threshold: isize = ax * ax * 500 / (width * width) + ay * ay * 500 / (height
                * height);
            let draw: isize = random_below(1000) as isize;
            if draw < threshold {
                map.set(&Pos::new(sx, sy), Tile::Wall);
            }
            v = v + 1;
        }

        let mut start_mut = start;
        let mut end_mut = end;
        crate::noise_reduction::asthetic_filter(
            &mut map,
            &mut start_mut,
            start_direction,
            &mut end_mut,
            end_direction,
        );

        map.set(
            &end,
            Tile::Gate(
                crate::metadata::GateMetadata::Exit {
                    destination: GateDestination::NextAutoGen,
                    label: Option::None,
                },
            ),
        );
        map.set(&start, Tile::Gate(crate::metadata::GateMetadata::EntryOnly));

        let gates: Vec<GateEntry> = {
            let mut g: Vec<GateEntry> = Vec::new();
            g.push(GateEntry::new(start, width));
            g.push(GateEntry::new(end, width));
            g
        };

        let ret = Board { map, gates };
        Result::Ok(ret)
    }
}

impl Board {
    /// Writes the room's grid to standard output.
    pub fn print(&self, highlight: Vec<Pos>)
        requires
            self.map.wf(),
    {
        self.map.print(highlight);
    }
}

/// Four quarter turns carry a tile back to itself.
proof fn lemma_tile_rotate_four(t: Tile)
    ensures
        t.spec_rotate_left().spec_rotate_left().spec_rotate_left().spec_rotate_left() == t,
{
    match t {
        Tile::Sign { text, width, height } => {
        },
        _ => {
        },
    }
}

/// Turning a room counterclockwise through a full revolution returns it
/// unchanged: the grid holds the same tile at every cell and the gates
/// stand where they stood, facing as they faced. The four turns are given
/// by the relations `rotate_left` establishes between successive rooms.
pub proof fn lemma_rotate_round_trip(b0: Board, b1: Board, b2: Board, b3: Board, b4: Board)
    requires
        b0.wf(),
        rotated_from(b0, b1),
        rotated_from(b1, b2),
        rotated_from(b2, b3),
        rotated_from(b3, b4),
    ensures
        b4.map@ == b0.map@,
        b4.gates@ == b0.gates@,
{
    let w = b0.map.spec_width();
    let h = b0.map.spec_height();
    assert forall|y: int, x: int| 0 <= y < h && 0 <= x < w implies b4.map@[y][x]
        == b0.map@[y][x] by {
        assert(b1.map@[w - 1 - x][y] == b0.map@[y][x].spec_rotate_left());
        assert(b2.map@[h - 1 - y][w - 1 - x] == b1.map@[w - 1 - x][y].spec_rotate_left());
        assert(b3.map@[x][h - 1 - y] == b2.map@[h - 1 - y][w - 1 - x].spec_rotate_left());
        assert(b4.map@[y][x] == b3.map@[x][h - 1 - y].spec_rotate_left());
        lemma_tile_rotate_four(b0.map@[y][x]);
    }
    assert(b4.map@ =~~= b0.map@);
    assert forall|i: int| 0 <= i < b0.gates@.len() implies #[trigger] b4.gates@[i]
        == b0.gates@[i] by {
        let g = b0.gates@[i];
        assert(b1.gates@[i].pos == g.pos.spec_rotate_left(w));
        assert(b2.gates@[i].pos == b1.gates@[i].pos.spec_rotate_left(h));
        assert(b3.gates@[i].pos == b2.gates@[i].pos.spec_rotate_left(w));
        assert(b4.gates@[i].pos == b3.gates@[i].pos.spec_rotate_left(h));
        assert(b4.gates@[i].inwards_direction
            == g.inwards_direction.spec_left().spec_left().spec_left().spec_left());
        match g.inwards_direction {
            Direction::North => {
            },
            Direction::South => {
            },
            Direction::East => {
            },
            Direction::West => {
            },
        }
    }
    assert(b4.gates@ =~= b0.gates@);
}

/// One room is the other turned a quarter counterclockwise: exactly the
/// relations `Board::rotate_left` ensures.
pub open spec fn rotated_from(src: Board, dst: Board) -> bool {
    &&& src.wf()
    &&& dst.wf()
    &&& dst.map.spec_width() == src.map.spec_height()
    &&& dst.map.spec_height() == src.map.spec_width()
    &&& forall|x: int, y: int|
        0 <= x < src.map.spec_width() && 0 <= y < src.map.spec_height()
            ==> dst.map@[src.map.spec_width() - 1 - x][y] == src.map@[y][x].spec_rotate_left()
    &&& dst.gates@.len() == src.gates@.len()
    &&& forall|i: int|
        0 <= i < src.gates@.len() ==> (#[trigger] dst.gates@[i]).pos
            == src.gates@[i].pos.spec_rotate_left(src.map.spec_width())
            && dst.gates@[i].inwards_direction == src.gates@[i].inwards_direction.spec_left()
}

/// A grid read through a one-cell patch: queries at the patched position see
/// the patch tile, every other query falls through to the base grid.
pub struct TileMapWrap<'a> {
    pub base: &'a TileMap,
    pub p: Pos,
    pub tile: Tile,
}

impl<'a> TileMapWrap<'a> {
    pub open spec fn spec_at(&self, p: Pos) -> Tile {
        if p == self.p {
            self.tile
        } else {
            self.base.cell_or_blank(p)
        }
    }

    pub fn at(&self, p: &Pos) -> (r: Tile)
        requires
            self.base.wf(),
        ensures
            r == self.spec_at(*p),
    {
        if p.x == self.p.x && p.y == self.p.y {
            self.tile.clone()
        } else {
            self.base.at(p)
        }
    }
}

} // verus!

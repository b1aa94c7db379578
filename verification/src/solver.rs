use itertools::Itertools;
use vstd::prelude::*;

use crate::board::{cascade_measure, gview_at, gview_set, spec_cascade, unit_vec, Board};
use crate::direction::Direction;
use crate::board_description::{BoardDescription, GameMode};
use crate::matrix::TileMap;
use crate::pos::Pos;
use crate::tile::Tile;
use crate::visitations::Visitations;

verus! {

/// How many moves beyond the optimum the search keeps exploring once a
/// first solution is known; also the number of route tiers reported.
pub const EXTRA_MOVES_SEARCH_MARGIN: usize = 3;

/// Absolute depth cap on branches explored before any solution is found.
pub const TOP_SOLUTION_SIZE: usize = 10;

/// Where a slide starting at `(x, y)` along the unit heading `(dx, dy)`
/// comes to rest: the last cell before the first tile that stops the actor.
pub open spec fn spec_slide(
    m: Seq<Seq<Tile>>,
    w: int,
    h: int,
    x: int,
    y: int,
    dx: int,
    dy: int,
) -> (int, int)
    decreases cascade_measure(w, h, x, y, dx, dy),
    when unit_vec(dx, dy) && cascade_measure(w, h, x, y, dx, dy) >= 0
{
    let nx = x + dx;
    let ny = y + dy;
    if !gview_at(m, w, h, nx, ny).spec_stops_player_during_sim() {
        spec_slide(m, w, h, nx, ny, dx, dy)
    } else {
        (x, y)
    }
}

/// The resting cell of a slide from an in-bounds cell is in bounds, keeps
/// the start's passability, and rests against a stopping tile.
pub proof fn lemma_slide_props(m: Seq<Seq<Tile>>, w: int, h: int, x: int, y: int, dx: int, dy: int)
    requires
        unit_vec(dx, dy),
        0 <= x < w,
        0 <= y < h,
    ensures
        ({
            let (rx, ry) = spec_slide(m, w, h, x, y, dx, dy);
            &&& 0 <= rx < w
            &&& 0 <= ry < h
            &&& gview_at(m, w, h, rx + dx, ry + dy).spec_stops_player_during_sim()
            &&& (rx == x && ry == y) || !gview_at(
                m,
                w,
                h,
                rx,
                ry,
            ).spec_stops_player_during_sim()
        }),
    decreases cascade_measure(w, h, x, y, dx, dy),
{
    let nx = x + dx;
    let ny = y + dy;
    if !gview_at(m, w, h, nx, ny).spec_stops_player_during_sim() {
        lemma_slide_props(m, w, h, nx, ny, dx, dy);
    }
}


/// Each heading's displacement is a unit vector.
pub proof fn lemma_unit_vector(d: Direction)
    ensures
        unit_vec(d.spec_vector().x as int, d.spec_vector().y as int),
{
    match d {
        Direction::North => {
            assert(d.spec_vector() == (Pos { x: 0, y: -1 as isize }));
        },
        Direction::South => {
            assert(d.spec_vector() == (Pos { x: 0, y: 1isize }));
        },
        Direction::East => {
            assert(d.spec_vector() == (Pos { x: 1isize, y: 0 }));
        },
        Direction::West => {
            assert(d.spec_vector() == (Pos { x: -1 as isize, y: 0 }));
        },
    }
}

/// What a sliding move reports: the resting cell, the tile that stopped it,
/// and that tile's position.
pub struct StepResult {
    pub hit: Tile,
    pub hit_pos: Pos,
    pub pos: Pos,
}

/// Slides from `start` along `direction` until the next cell would stop the
/// actor, and reports where the slide rests and what it rests against.
///
/// The grid is finite and out-of-bounds queries read as the blocking
/// `Outside` sentinel, so the slide always terminates; the resting cell is
/// `start` itself or a cell the actor may stand on.
pub fn step(map: &TileMap, start: &Pos, direction: &Direction) -> (r: StepResult)
    requires
        map.wf(),
        map.spec_in_bounds(*start),
    ensures
        ({
            let (rx, ry) = spec_slide(
                map@,
                map.spec_width(),
                map.spec_height(),
                start.x as int,
                start.y as int,
                direction.spec_vector().x as int,
                direction.spec_vector().y as int,
            );
            &&& r.pos.x == rx
            &&& r.pos.y == ry
            &&& map.spec_in_bounds(r.pos)
            &&& r.hit_pos.x == rx + direction.spec_vector().x
            &&& r.hit_pos.y == ry + direction.spec_vector().y
            &&& r.hit == map.cell_or_blank(r.hit_pos)
            &&& r.hit.spec_stops_player_during_sim()
            &&& r.pos == *start || !map.cell_or_blank(r.pos).spec_stops_player_during_sim()
        }),
{
    let ghost w = map.spec_width();
    let ghost h = map.spec_height();
    let ghost dx = direction.spec_vector().x as int;
    let ghost dy = direction.spec_vector().y as int;
    let mut ret: Pos = *start;
    proof {
        lemma_unit_vector(*direction);
        lemma_slide_props(map@, w, h, start.x as int, start.y as int, dx, dy);
    }
    loop
        invariant_except_break
            map.wf(),
            map.spec_in_bounds(ret),
            dx == direction.spec_vector().x as int,
            dy == direction.spec_vector().y as int,
            unit_vec(dx, dy),
            w == map.spec_width(),
            h == map.spec_height(),
            spec_slide(map@, w, h, ret.x as int, ret.y as int, dx, dy) == spec_slide(
                map@,
                w,
                h,
                start.x as int,
                start.y as int,
                dx,
                dy,
            ),
            ret == *start || !map.cell_or_blank(ret).spec_stops_player_during_sim(),
        ensures
            map.spec_in_bounds(ret),
            (ret.x as int, ret.y as int) == spec_slide(
                map@,
                w,
                h,
                start.x as int,
                start.y as int,
                dx,
                dy,
            ),
            ret == *start || !map.cell_or_blank(ret).spec_stops_player_during_sim(),
        decreases cascade_measure(w, h, ret.x as int, ret.y as int, dx, dy),
    {
        let next_pos = ret.plus(direction.vector());
        let t = map.at(&next_pos);
        proof {
            assert(map.cell_or_blank(next_pos) == gview_at(
                map@,
                w,
                h,
                ret.x + dx,
                ret.y + dy,
            ));
        }
        if t.stops_player_during_sim() {
            proof {
                assert(spec_slide(map@, w, h, ret.x as int, ret.y as int, dx, dy) == (
                    ret.x as int,
                    ret.y as int,
                ));
            }
            break ;
        }
        proof {
            assert(spec_slide(map@, w, h, ret.x as int, ret.y as int, dx, dy) == spec_slide(
                map@,
                w,
                h,
                ret.x + dx,
                ret.y + dy,
                dx,
                dy,
            ));
        }
        ret = next_pos;
    }
    let hit_pos = ret.plus(direction.vector());
    let hit = map.at(&hit_pos);
    StepResult { hit, hit_pos, pos: ret }
}

/// One solver move from a resting position, as a mathematical function:
/// slide, then erode a struck weak wall or cascade a struck box (resetting
/// the visitation set, since the board changed), then refuse the move if the
/// resting cell was already visited, else record it.
pub open spec fn spec_step_once(
    m: Seq<Seq<Tile>>,
    w: int,
    h: int,
    x: int,
    y: int,
    visited: Set<(int, int)>,
    d: Direction,
) -> Option<(Seq<Seq<Tile>>, int, int, Set<(int, int)>, bool)> {
    let dx = d.spec_vector().x as int;
    let dy = d.spec_vector().y as int;
    let rest = spec_slide(m, w, h, x, y, dx, dy);
    let hx = rest.0 + dx;
    let hy = rest.1 + dy;
    let hit = gview_at(m, w, h, hx, hy);
    let m1 = match hit {
        Tile::WeakWall(hits) => gview_set(
            m,
            hx,
            hy,
            if hits <= 1 {
                Tile::Ice
            } else {
                Tile::WeakWall((hits - 1) as u8)
            },
        ),
        Tile::Box => spec_cascade(m, w, h, hx, hy, dx, dy),
        _ => m,
    };
    let changed = hit is WeakWall || hit is Box;
    let v1 = if changed {
        Set::empty()
    } else {
        visited
    };
    if v1.contains(rest) {
        Option::None
    } else {
        Option::Some((m1, rest.0, rest.1, v1.insert(rest), changed))
    }
}

/// The solver state after replaying a sequence of headings from a start
/// position over a grid, or nothing if some move rests on an
/// already-visited cell.
pub open spec fn spec_replay(
    m: Seq<Seq<Tile>>,
    w: int,
    h: int,
    x: int,
    y: int,
    visited: Set<(int, int)>,
    dirs: Seq<Direction>,
) -> Option<(Seq<Seq<Tile>>, int, int, Set<(int, int)>)>
    decreases dirs.len(),
{
    if dirs.len() == 0 {
        Option::Some((m, x, y, visited))
    } else {
        match spec_step_once(m, w, h, x, y, visited, dirs[0]) {
            Option::Some((m1, x1, y1, v1, _)) => spec_replay(
                m1,
                w,
                h,
                x1,
                y1,
                v1,
                dirs.drop_first(),
            ),
            Option::None => Option::None,
        }
    }
}

/// The grid a finished replay leaves behind.
pub open spec fn replay_grid(r: Option<(Seq<Seq<Tile>>, int, int, Set<(int, int)>)>) -> Seq<
    Seq<Tile>,
> {
    match r {
        Option::Some(t) => t.0,
        Option::None => Seq::empty(),
    }
}

/// The position a finished replay ends at.
pub open spec fn replay_pos(r: Option<(Seq<Seq<Tile>>, int, int, Set<(int, int)>)>) -> (int, int) {
    match r {
        Option::Some(t) => (t.1, t.2),
        Option::None => (0, 0),
    }
}

/// A replay that goes through against some visitation set also goes through
/// against any subset of it, over the same grid and to the same place.
pub proof fn lemma_replay_monotonic(
    m: Seq<Seq<Tile>>,
    w: int,
    h: int,
    x: int,
    y: int,
    va: Set<(int, int)>,
    vb: Set<(int, int)>,
    dirs: Seq<Direction>,
)
    requires
        va.subset_of(vb),
        spec_replay(m, w, h, x, y, vb, dirs) is Some,
    ensures
        spec_replay(m, w, h, x, y, va, dirs) is Some,
        replay_grid(spec_replay(m, w, h, x, y, va, dirs)) == replay_grid(
            spec_replay(m, w, h, x, y, vb, dirs),
        ),
        replay_pos(spec_replay(m, w, h, x, y, va, dirs)) == replay_pos(
            spec_replay(m, w, h, x, y, vb, dirs),
        ),
    decreases dirs.len(),
{
    if dirs.len() == 0 {
    } else {
        let d = dirs[0];
        let dx = d.spec_vector().x as int;
        let dy = d.spec_vector().y as int;
        let rest = spec_slide(m, w, h, x, y, dx, dy);
        let hit = gview_at(m, w, h, rest.0 + dx, rest.1 + dy);
        let changed = hit is WeakWall || hit is Box;
        match spec_step_once(m, w, h, x, y, vb, d) {
            Option::Some((m1, x1, y1, v1, _)) => {
                if changed {
                    lemma_replay_monotonic(m1, w, h, x1, y1, v1, v1, dirs.drop_first());
                } else {
                    assert(!vb.contains(rest));
                    assert(!va.contains(rest));
                    assert(va.insert(rest).subset_of(vb.insert(rest)));
                    lemma_replay_monotonic(
                        m1,
                        w,
                        h,
                        x1,
                        y1,
                        va.insert(rest),
                        v1,
                        dirs.drop_first(),
                    );
                }
            },
            Option::None => {},
        }
    }
}

/// Longest move sequence any search state may carry.
pub const MAX_PATH: usize = 100000;

/// The grid a one-move result leaves behind.
pub open spec fn once_grid(r: Option<(Seq<Seq<Tile>>, int, int, Set<(int, int)>, bool)>) -> Seq<
    Seq<Tile>,
> {
    match r {
        Option::Some(t) => t.0,
        Option::None => Seq::empty(),
    }
}

/// The position a one-move result rests at.
pub open spec fn once_pos(r: Option<(Seq<Seq<Tile>>, int, int, Set<(int, int)>, bool)>) -> (
    int,
    int,
) {
    match r {
        Option::Some(t) => (t.1, t.2),
        Option::None => (0, 0),
    }
}

/// The visitation set a one-move result carries on with.
pub open spec fn once_vis(r: Option<(Seq<Seq<Tile>>, int, int, Set<(int, int)>, bool)>) -> Set<
    (int, int),
> {
    match r {
        Option::Some(t) => t.3,
        Option::None => Set::empty(),
    }
}

/// Whether a one-move result changed the board.
pub open spec fn once_changed(
    r: Option<(Seq<Seq<Tile>>, int, int, Set<(int, int)>, bool)>,
) -> bool {
    match r {
        Option::Some(t) => t.4,
        Option::None => false,
    }
}

/// The visitation set as a mathematical set of coordinates.
pub open spec fn vset(v: Visitations) -> Set<(int, int)> {
    Set::new(
        |q: (int, int)|
            0 <= q.0 < v.width && 0 <= q.1 < v.height && v.spec_contains(
                Pos { x: q.0 as isize, y: q.1 as isize },
            ),
    )
}

/// A freshly built visitation set reads as the empty set.
pub proof fn lemma_vset_empty(v: Visitations)
    requires
        forall|p: Pos| v.valid(p) ==> !v.spec_contains(p),
    ensures
        vset(v) == Set::<(int, int)>::empty(),
{
    assert forall|q: (int, int)| !vset(v).contains(q) by {
        if 0 <= q.0 < v.width && 0 <= q.1 < v.height {
            assert(v.valid(Pos { x: q.0 as isize, y: q.1 as isize }));
        }
    }
    assert(vset(v) =~= Set::<(int, int)>::empty());
}

/// Inserting one position adds exactly its coordinates to the set view.
pub proof fn lemma_vset_insert(a: Visitations, b: Visitations, p: Pos)
    requires
        b.width == a.width,
        b.height == a.height,
        a.valid(p),
        b.spec_contains(p),
        forall|q: Pos| a.valid(q) && q != p ==> b.spec_contains(q) == a.spec_contains(q),
    ensures
        vset(b) == vset(a).insert((p.x as int, p.y as int)),
{
    assert forall|q: (int, int)| vset(b).contains(q) == vset(a).insert(
        (p.x as int, p.y as int),
    ).contains(q) by {
        if 0 <= q.0 < a.width && 0 <= q.1 < a.height {
            let qp = Pos { x: q.0 as isize, y: q.1 as isize };
            assert(a.valid(qp));
            if qp == p {
                assert(q == (p.x as int, p.y as int));
            } else {
                assert(b.spec_contains(qp) == a.spec_contains(qp));
            }
        }
    }
    assert(vset(b) =~= vset(a).insert((p.x as int, p.y as int)));
}

/// Copies a move list; tuple entries are plain copies.
fn clone_path(v: &Vec<(Direction, Pos)>) -> (r: Vec<(Direction, Pos)>)
    ensures
        r@ == v@,
{
    let mut r: Vec<(Direction, Pos)> = Vec::new();
    let mut i: usize = 0;
    while i < v.len()
        invariant
            i <= v@.len(),
            r@ == v@.take(i as int),
        decreases v@.len() - i,
    {
        r.push(v[i]);
        proof {
            assert(v@.take(i + 1) =~= v@.take(i as int).push(v@[i as int]));
        }
        i = i + 1;
    }
    proof {
        assert(v@.take(v@.len() as int) =~= v@);
    }
    r
}

/// One branch of the breadth-first search: a private board snapshot, the
/// moves taken so far, and the per-epoch visitation set.
pub struct SearchState {
    pub board: Board,
    pub path: Vec<(Direction, Pos)>,
    pub root_direction: Direction,
    pub root_position: Pos,
    pub visitations: Visitations,
    pub tile_length: isize,
    pub broken_walls: usize,
    pub hitted_boxes: usize,
    pub last_board_change: bool,
}

impl SearchState {
    /// Where this branch currently rests.
    pub open spec fn spec_pos(&self) -> Pos {
        if self.path@.len() == 0 {
            self.root_position
        } else {
            self.path@.last().1
        }
    }

    /// The headings of the moves taken so far.
    pub open spec fn dirs(&self) -> Seq<Direction> {
        self.path@.map_values(|e: (Direction, Pos)| e.0)
    }

    pub open spec fn wf(&self) -> bool {
        &&& self.board.wf()
        &&& self.visitations.wf()
        &&& self.visitations.width as int == self.board.map.spec_width()
        &&& self.visitations.height as int == self.board.map.spec_height()
        &&& self.board.map.spec_in_bounds(self.spec_pos())
        &&& self.path@.len() <= MAX_PATH
        &&& 0 <= self.tile_length <= 20000 * self.path@.len()
        &&& self.broken_walls <= self.path@.len()
        &&& self.hitted_boxes <= self.path@.len()
    }

    pub fn get_position(&self) -> (r: Pos)
        requires
            self.path@.len() <= MAX_PATH,
        ensures
            r == self.spec_pos(),
    {
        if self.path.len() == 0 {
            self.root_position
        } else {
            self.path[self.path.len() - 1].1
        }
    }

    /// The headings worth trying next: only the root heading before the
    /// first move, any heading right after the board changed, otherwise the
    /// two perpendicular turns.
    pub fn next_posible_directions(&self) -> (r: Vec<Direction>)
        requires
            self.path@.len() <= MAX_PATH,
        ensures
            r@.len() <= 4,
            self.path@.len() == 0 ==> r@ == seq![self.root_direction],
            self.path@.len() > 0 && self.last_board_change ==> r@ == seq![
                Direction::North,
                Direction::East,
                Direction::South,
                Direction::West,
            ],
            self.path@.len() > 0 && !self.last_board_change ==> r@ == seq![
                self.path@.last().0.spec_left(),
                self.path@.last().0.spec_right(),
            ],
    {
        if self.path.len() == 0 {
            let mut r: Vec<Direction> = Vec::new();
            r.push(self.root_direction);
            proof {
                assert(r@ =~= seq![self.root_direction]);
            }
            r
        } else if self.last_board_change {
            Direction::all()
        } else {
            let d = self.path[self.path.len() - 1].0;
            let mut r: Vec<Direction> = Vec::new();
            r.push(d.left());
            r.push(d.right());
            proof {
                assert(r@ =~= seq![d.spec_left(), d.spec_right()]);
            }
            r
        }
    }

    /// Takes one move from the current resting position: the result is
    /// exactly what `spec_step_once` says, or the error when the move rests
    /// on a cell this epoch already visited.
    pub fn step(&self, direction: &Direction) -> (r: Result<SearchState, String>)
        requires
            self.wf(),
            self.path@.len() < MAX_PATH,
        ensures
            ({
                let once = spec_step_once(
                    self.board.map@,
                    self.board.map.spec_width(),
                    self.board.map.spec_height(),
                    self.spec_pos().x as int,
                    self.spec_pos().y as int,
                    vset(self.visitations),
                    *direction,
                );
                match r {
                    Result::Ok(s) => {
                        &&& once is Some
                        &&& s.wf()
                        &&& s.board.map.spec_width() == self.board.map.spec_width()
                        &&& s.board.map.spec_height() == self.board.map.spec_height()
                        &&& s.board.map@ == once_grid(once)
                        &&& s.spec_pos().x as int == once_pos(once).0
                        &&& s.spec_pos().y as int == once_pos(once).1
                        &&& vset(s.visitations) == once_vis(once)
                        &&& s.last_board_change == once_changed(once)
                        &&& s.path@ == self.path@.push((*direction, s.spec_pos()))
                        &&& s.root_direction == self.root_direction
                        &&& s.root_position == self.root_position
                        &&& s.board.gates@ == self.board.gates@
                    },
                    Result::Err(_) => once is None,
                }
            }),
    {
        let ghost w = self.board.map.spec_width();
        let ghost h = self.board.map.spec_height();
        let step_start = self.get_position();
        let new_step = step(&self.board.map, &step_start, direction);

        let dx_len: isize = if new_step.pos.x >= step_start.x {
            new_step.pos.x - step_start.x
        } else {
            step_start.x - new_step.pos.x
        };
        let dy_len: isize = if new_step.pos.y >= step_start.y {
            new_step.pos.y - step_start.y
        } else {
            step_start.y - new_step.pos.y
        };
        let step_length: isize = dx_len + dy_len;

        proof {
            assert(dx_len + dy_len <= 20000);
        }

        let mut new_board = self.board.clone();
        let mut new_board_changed = false;
        let mut new_hitted_boxes = self.hitted_boxes;
        let mut new_broken_walls = self.broken_walls;
        let mut new_visitations = self.visitations.clone();
        proof {
            assert(vset(new_visitations) =~= vset(self.visitations));
        }

        if let Tile::WeakWall(hits) = new_step.hit {
            if hits <= 1 {
                new_board.map.set(&new_step.hit_pos, Tile::Ice);
            } else {
                new_board.map.set(&new_step.hit_pos, Tile::WeakWall(hits - 1));
            }
            new_hitted_boxes = new_hitted_boxes + 1;
            new_visitations = Visitations::new(
                self.board.map.get_width(),
                self.board.map.get_height(),
            );
            new_board_changed = true;
        }

        if matches!(new_step.hit, Tile::Box) {
            new_board.box_cascade(&new_step.hit_pos, direction);
            new_broken_walls = new_broken_walls + 1;
            new_visitations = Visitations::new(
                self.board.map.get_width(),
                self.board.map.get_height(),
            );
            new_board_changed = true;
        }

        proof {
            if new_board_changed {
                lemma_vset_empty(new_visitations);
            }
        }

        if new_visitations.contains(&new_step.pos) {
            proof {
                assert(vset(new_visitations).contains(
                    (new_step.pos.x as int, new_step.pos.y as int),
                ));
            }
            return Result::Err("went into a loop".to_string());
        }

        let ghost pre_insert = new_visitations;
        new_visitations.insert(&new_step.pos);
        proof {
            lemma_vset_insert(pre_insert, new_visitations, new_step.pos);
        }

        let mut new_path = clone_path(&self.path);
        new_path.push((*direction, new_step.pos));

        proof {
            vstd::arithmetic::mul::lemma_mul_inequality(
                self.path@.len() as int,
                MAX_PATH as int,
                20000,
            );
        }

        let r = SearchState {
            board: new_board,
            path: new_path,
            root_direction: self.root_direction,
            root_position: self.root_position,
            visitations: new_visitations,
            tile_length: self.tile_length + step_length,
            broken_walls: new_broken_walls,
            hitted_boxes: new_hitted_boxes,
            last_board_change: new_board_changed,
        };
        Result::Ok(r)
    }
}

/// Extending a move list by one heading replays as the original list
/// followed by one more move.
#[verifier::spinoff_prover]
pub proof fn lemma_replay_snoc(
    m: Seq<Seq<Tile>>,
    w: int,
    h: int,
    x: int,
    y: int,
    v: Set<(int, int)>,
    dirs: Seq<Direction>,
    d: Direction,
)
    ensures
        ({
            let base = spec_replay(m, w, h, x, y, v, dirs);
            let ext = spec_replay(m, w, h, x, y, v, dirs.push(d));
            match base {
                Option::Some(t) => ext == (match spec_step_once(m, w, h, x, y, v, dirs[0]) {
                    _ => match spec_step_once(t.0, w, h, t.1, t.2, t.3, d) {
                        Option::Some(u) => Option::Some((u.0, u.1, u.2, u.3)),
                        Option::None => Option::None,
                    },
                }),
                Option::None => ext is None,
            }
        }),
    decreases dirs.len(),
{
    if dirs.len() == 0 {
        assert(dirs.push(d)[0] == d);
        assert(dirs.push(d).drop_first() =~= Seq::<Direction>::empty());
    } else {
        assert(dirs.push(d)[0] == dirs[0]);
        assert(dirs.push(d).drop_first() =~= dirs.drop_first().push(d));
        match spec_step_once(m, w, h, x, y, v, dirs[0]) {
            Option::Some((m1, x1, y1, v1, _)) => {
                lemma_replay_snoc(m1, w, h, x1, y1, v1, dirs.drop_first(), d);
            },
            Option::None => {},
        }
    }
}

/// A replay that fails on a prefix fails on any extension of it.
pub proof fn lemma_replay_extend_none(
    m: Seq<Seq<Tile>>,
    w: int,
    h: int,
    x: int,
    y: int,
    v: Set<(int, int)>,
    a: Seq<Direction>,
    b: Seq<Direction>,
)
    requires
        spec_replay(m, w, h, x, y, v, a) is None,
        a.is_prefix_of(b),
    ensures
        spec_replay(m, w, h, x, y, v, b) is None,
    decreases a.len(),
{
    if a.len() == 0 {
    } else {
        assert(b[0] == a[0]);
        match spec_step_once(m, w, h, x, y, v, a[0]) {
            Option::Some((m1, x1, y1, v1, _)) => {
                assert(a.drop_first().is_prefix_of(b.drop_first()));
                lemma_replay_extend_none(m1, w, h, x1, y1, v1, a.drop_first(), b.drop_first());
            },
            Option::None => {},
        }
    }
}

/// One way out of the room: the ordered moves of a solution, each with the
/// cell it rests on.
pub struct Route {
    pub solution: Vec<(Direction, Pos)>,
}

impl Clone for Route {
    fn clone(&self) -> (r: Self)
        ensures
            r.solution@ == self.solution@,
    {
        Route { solution: clone_path(&self.solution) }
    }
}

/// The headings of a stored solution.
pub open spec fn route_dirs(sol: Seq<(Direction, Pos)>) -> Seq<Direction> {
    sol.map_values(|e: (Direction, Pos)| e.0)
}

/// A stored solution replays cleanly against a grid from the given start
/// with a fresh visitation epoch, and its recorded final cell matches where
/// the replay ends.
pub open spec fn route_solves(
    m: Seq<Seq<Tile>>,
    w: int,
    h: int,
    gx: int,
    gy: int,
    sol: Seq<(Direction, Pos)>,
) -> bool {
    let res = spec_replay(m, w, h, gx, gy, Set::empty(), route_dirs(sol));
    &&& sol.len() > 0
    &&& res is Some
    &&& replay_pos(res) == (sol.last().1.x as int, sol.last().1.y as int)
}

impl Route {
    /// Replays this route's headings against the given room from the given
    /// gate, re-applying erosion and box pushes in order, and reports
    /// whether every move goes through and ends where the route recorded.
    pub fn solves(&self, board: &Board, initial_gate_id: usize) -> (r: bool)
        requires
            board.wf(),
            initial_gate_id < board.gates@.len(),
            1 <= self.solution@.len() <= MAX_PATH,
        ensures
            r == route_solves(
                board.map@,
                board.map.spec_width(),
                board.map.spec_height(),
                board.gates@[initial_gate_id as int].pos.x as int,
                board.gates@[initial_gate_id as int].pos.y as int,
                self.solution@,
            ),
    {
        let ghost w = board.map.spec_width();
        let ghost h = board.map.spec_height();
        let ghost m0 = board.map@;
        let ghost gp = board.gates@[initial_gate_id as int].pos;
        let ghost full = route_dirs(self.solution@);

        let start_vis = Visitations::new(board.map.get_width(), board.map.get_height());
        proof {
            lemma_vset_empty(start_vis);
        }
        let mut cursor = SearchState {
            tile_length: 0,
            path: Vec::new(),
            root_direction: board.get_gate_direction(initial_gate_id),
            root_position: board.get_gate_position(initial_gate_id),
            visitations: start_vis,
            board: board.clone(),
            broken_walls: 0,
            hitted_boxes: 0,
            last_board_change: false,
        };

        let mut i: usize = 0;
        while i < self.solution.len()
            invariant
                i <= self.solution@.len(),
                self.solution@.len() <= MAX_PATH,
                w == board.map.spec_width(),
                h == board.map.spec_height(),
                m0 == board.map@,
                gp == board.gates@[initial_gate_id as int].pos,
                full == route_dirs(self.solution@),
                cursor.wf(),
                cursor.board.map.spec_width() == w,
                cursor.board.map.spec_height() == h,
                cursor.path@.len() == i,
                spec_replay(m0, w, h, gp.x as int, gp.y as int, Set::empty(), full.take(i as int))
                    == Option::Some(
                    (
                        cursor.board.map@,
                        cursor.spec_pos().x as int,
                        cursor.spec_pos().y as int,
                        vset(cursor.visitations),
                    ),
                ),
            decreases self.solution@.len() - i,
        {
            let direction = self.solution[i].0;
            proof {
                lemma_replay_snoc(
                    m0,
                    w,
                    h,
                    gp.x as int,
                    gp.y as int,
                    Set::empty(),
                    full.take(i as int),
                    full[i as int],
                );
                assert(full.take(i as int).push(full[i as int]) =~= full.take(i + 1));
            }
            cursor = match cursor.step(&direction) {
                Result::Ok(new_cursor) => new_cursor,
                Result::Err(_) => {
                    proof {
                        assert(spec_replay(
                            m0,
                            w,
                            h,
                            gp.x as int,
                            gp.y as int,
                            Set::empty(),
                            full.take(i + 1),
                        ) is None);
                        assert(full.take(i + 1).is_prefix_of(full));
                        lemma_replay_extend_none(
                            m0,
                            w,
                            h,
                            gp.x as int,
                            gp.y as int,
                            Set::empty(),
                            full.take(i + 1),
                            full,
                        );
                    }
                    return false;
                },
            };
            i = i + 1;
        }
        proof {
            assert(full.take(self.solution@.len() as int) =~= full);
        }

        let last = self.solution[self.solution.len() - 1].1;
        let cur = cursor.get_position();
        if last.x != cur.x || last.y != cur.y {
            return false;
        }
        true
    }
}

/// The solver's verdict for one room: the optimal move count and the
/// discovered routes grouped by how many moves past the optimum they take.
pub struct Analysis {
    pub optimal_movement_count: usize,
    pub routes: Vec<Vec<Route>>,
}

impl Clone for Analysis {
    fn clone(&self) -> (r: Self)
        ensures
            r.optimal_movement_count == self.optimal_movement_count,
            r.routes@.len() == self.routes@.len(),
            forall|t: int|
                0 <= t < self.routes@.len() ==> (#[trigger] r.routes@[t])@.len()
                    == self.routes@[t]@.len(),
            forall|t: int, j: int|
                0 <= t < self.routes@.len() && 0 <= j < self.routes@[t]@.len() ==> (
                #[trigger] r.routes@[t]@[j]).solution@ == self.routes@[t]@[j].solution@,
    {
        let mut routes: Vec<Vec<Route>> = Vec::new();
        let mut t: usize = 0;
        while t < self.routes.len()
            invariant
                t <= self.routes@.len(),
                routes@.len() == t,
                forall|a: int|
                    0 <= a < t ==> (#[trigger] routes@[a])@.len() == self.routes@[a]@.len(),
                forall|a: int, j: int|
                    0 <= a < t && 0 <= j < self.routes@[a]@.len() ==> (
                    #[trigger] routes@[a]@[j]).solution@ == self.routes@[a]@[j].solution@,
            decreases self.routes@.len() - t,
        {
            let tier = &self.routes[t];
            let mut tier_out: Vec<Route> = Vec::new();
            let mut j: usize = 0;
            while j < tier.len()
                invariant
                    j <= tier@.len(),
                    tier@ == self.routes@[t as int]@,
                    t < self.routes@.len(),
                    tier_out@.len() == j,
                    forall|b: int|
                        0 <= b < j ==> (#[trigger] tier_out@[b]).solution@
                            == tier@[b].solution@,
                decreases tier@.len() - j,
            {
                tier_out.push(tier[j].clone());
                j = j + 1;
            }
            routes.push(tier_out);
            t = t + 1;
        }
        Analysis { optimal_movement_count: self.optimal_movement_count, routes }
    }
}

impl Analysis {
    /// Every stored route, in every tier, still solves the given room from
    /// the given gate.
    pub open spec fn spec_still_applies(&self, board: Board, initial_gate_id: int) -> bool {
        forall|t: int, j: int|
            0 <= t < self.routes@.len() && 0 <= j < self.routes@[t]@.len() ==> route_solves(
                board.map@,
                board.map.spec_width(),
                board.map.spec_height(),
                board.gates@[initial_gate_id].pos.x as int,
                board.gates@[initial_gate_id].pos.y as int,
                (#[trigger] self.routes@[t]@[j]).solution@,
            )
    }

    /// Checks each stored route by replaying it against the room.
    pub fn check_still_applies(&self, board: &Board, initial_gate_id: usize) -> (r: bool)
        requires
            board.wf(),
            initial_gate_id < board.gates@.len(),
            forall|t: int, j: int|
                0 <= t < self.routes@.len() && 0 <= j < self.routes@[t]@.len() ==> 1 <= (
                #[trigger] self.routes@[t]@[j]).solution@.len() <= MAX_PATH,
        ensures
            r == self.spec_still_applies(*board, initial_gate_id as int),
    {
        let mut t: usize = 0;
        while t < self.routes.len()
            invariant
                t <= self.routes@.len(),
                board.wf(),
                initial_gate_id < board.gates@.len(),
                forall|a: int, j: int|
                    0 <= a < self.routes@.len() && 0 <= j < self.routes@[a]@.len() ==> 1 <= (
                    #[trigger] self.routes@[a]@[j]).solution@.len() <= MAX_PATH,
                forall|a: int, j: int|
                    0 <= a < t && 0 <= j < self.routes@[a]@.len() ==> route_solves(
                        board.map@,
                        board.map.spec_width(),
                        board.map.spec_height(),
                        board.gates@[initial_gate_id as int].pos.x as int,
                        board.gates@[initial_gate_id as int].pos.y as int,
                        (#[trigger] self.routes@[a]@[j]).solution@,
                    ),
            decreases self.routes@.len() - t,
        {
            let tier = &self.routes[t];
            let mut j: usize = 0;
            while j < tier.len()
                invariant
                    j <= tier@.len(),
                    tier@ == self.routes@[t as int]@,
                    t < self.routes@.len(),
                    board.wf(),
                    initial_gate_id < board.gates@.len(),
                    forall|a: int, b: int|
                        0 <= a < self.routes@.len() && 0 <= b < self.routes@[a]@.len() ==> 1 <= (
                        #[trigger] self.routes@[a]@[b]).solution@.len() <= MAX_PATH,
                    forall|b: int|
                        0 <= b < j ==> route_solves(
                            board.map@,
                            board.map.spec_width(),
                            board.map.spec_height(),
                            board.gates@[initial_gate_id as int].pos.x as int,
                            board.gates@[initial_gate_id as int].pos.y as int,
                            (#[trigger] tier@[b]).solution@,
                        ),
                decreases tier@.len() - j,
            {
                if !tier[j].solves(board, initial_gate_id) {
                    return false;
                }
                j = j + 1;
            }
            t = t + 1;
        }
        true
    }
}


/// Whether the board changed on the last of the given moves: the changed
/// flag of the final step of their replay.
pub open spec fn replay_last_changed(
    m0: Seq<Seq<Tile>>,
    w: int,
    h: int,
    x0: int,
    y0: int,
    v0: Set<(int, int)>,
    dirs: Seq<Direction>,
) -> bool
    recommends
        dirs.len() >= 1,
{
    match spec_replay(m0, w, h, x0, y0, v0, dirs.take(dirs.len() - 1)) {
        Option::Some((m, x, y, v)) => once_changed(spec_step_once(m, w, h, x, y, v, dirs.last())),
        Option::None => false,
    }
}

/// The `k`-th heading of a move list obeys the turn rule: the entry
/// heading first, then only the perpendicular turns unless the board
/// changed on the move before.
pub open spec fn step_allowed(
    m0: Seq<Seq<Tile>>,
    w: int,
    h: int,
    x0: int,
    y0: int,
    v0: Set<(int, int)>,
    root_dir: Direction,
    dirs: Seq<Direction>,
    k: int,
) -> bool
    recommends
        0 <= k < dirs.len(),
{
    if k == 0 {
        dirs[0] == root_dir
    } else {
        dirs[k] == dirs[k - 1].spec_left() || dirs[k] == dirs[k - 1].spec_right()
            || replay_last_changed(m0, w, h, x0, y0, v0, dirs.take(k))
    }
}

/// A move list that solves the room: it starts with the entry heading,
/// obeys the turn rule throughout, replays without a loop refusal, and
/// rests on the exit cell at its end and nowhere before.
pub open spec fn solving_sequence(
    m0: Seq<Seq<Tile>>,
    w: int,
    h: int,
    gp: Pos,
    v0: Set<(int, int)>,
    root_dir: Direction,
    exit_pos: Pos,
    dirs: Seq<Direction>,
) -> bool {
    &&& 1 <= dirs.len()
    &&& spec_replay(m0, w, h, gp.x as int, gp.y as int, v0, dirs) is Some
    &&& forall|k: int|
        0 <= k < dirs.len() ==> #[trigger] step_allowed(
            m0,
            w,
            h,
            gp.x as int,
            gp.y as int,
            v0,
            root_dir,
            dirs,
            k,
        )
    &&& replay_pos(spec_replay(m0, w, h, gp.x as int, gp.y as int, v0, dirs)) == (
        exit_pos.x as int,
        exit_pos.y as int,
    )
    &&& forall|k: int|
        1 <= k < dirs.len() ==> #[trigger] replay_pos(
            spec_replay(m0, w, h, gp.x as int, gp.y as int, v0, dirs.take(k)),
        ) != (exit_pos.x as int, exit_pos.y as int)
}

/// A prefix of a clean replay replays cleanly too.
pub proof fn lemma_replay_prefix(
    m: Seq<Seq<Tile>>,
    w: int,
    h: int,
    x: int,
    y: int,
    v: Set<(int, int)>,
    dirs: Seq<Direction>,
    k: int,
)
    requires
        0 <= k <= dirs.len(),
        spec_replay(m, w, h, x, y, v, dirs) is Some,
    ensures
        spec_replay(m, w, h, x, y, v, dirs.take(k)) is Some,
    decreases dirs.len() - k,
{
    if k == dirs.len() {
        assert(dirs.take(k) =~= dirs);
    } else {
        lemma_replay_prefix(m, w, h, x, y, v, dirs, k + 1);
        lemma_replay_snoc(m, w, h, x, y, v, dirs.take(k), dirs[k]);
        assert(dirs.take(k).push(dirs[k]) =~= dirs.take(k + 1));
    }
}

/// A branch whose move list is a proper prefix of the given one.
pub open spec fn sigma_prefix(s: SearchState, sol: Seq<Direction>) -> bool {
    s.path@.len() < sol.len() && s.dirs() == sol.take(s.path@.len() as int)
}

/// Some queued branch is a proper prefix of the given move list.
pub open spec fn live_prefix(q: Seq<SearchState>, sol: Seq<Direction>) -> bool {
    exists|i: int| 0 <= i < q.len() && sigma_prefix(#[trigger] q[i], sol)
}

/// Dropping the front entry keeps every other live prefix.
pub proof fn lemma_live_prefix_drop(q: Seq<SearchState>, sol: Seq<Direction>)
    requires
        live_prefix(q, sol),
        q.len() >= 1,
        !sigma_prefix(q[0], sol),
    ensures
        live_prefix(q.subrange(1, q.len() as int), sol),
{
    let i = choose|i: int| 0 <= i < q.len() && sigma_prefix(#[trigger] q[i], sol);
    assert(q.subrange(1, q.len() as int)[i - 1] == q[i]);
}

/// Pushing keeps every live prefix, and a pushed prefix goes live.
pub proof fn lemma_live_prefix_push(q: Seq<SearchState>, s: SearchState)
    ensures
        forall|sol: Seq<Direction>|
            live_prefix(q, sol) ==> #[trigger] live_prefix(q.push(s), sol),
        forall|sol: Seq<Direction>|
            #[trigger] sigma_prefix(s, sol) ==> live_prefix(q.push(s), sol),
{
    assert(q.push(s)[q.len() as int] == s);
    assert forall|sol: Seq<Direction>| live_prefix(q, sol) implies #[trigger] live_prefix(
        q.push(s),
        sol,
    ) by {
        let i = choose|i: int| 0 <= i < q.len() && sigma_prefix(#[trigger] q[i], sol);
        assert(q.push(s)[i] == q[i]);
    }
}


/// The visitation epoch a search starts with: only the entry cell held.
pub open spec fn entry_epoch(gp: Pos) -> Set<(int, int)> {
    Set::empty().insert((gp.x as int, gp.y as int))
}

/// No solving sequence is shorter than the bound.
pub open spec fn no_solution_below(
    m0: Seq<Seq<Tile>>,
    w: int,
    h: int,
    gp: Pos,
    v0: Set<(int, int)>,
    root_dir: Direction,
    exit_pos: Pos,
    bound: int,
) -> bool {
    forall|sol: Seq<Direction>|
        #[trigger] solving_sequence(m0, w, h, gp, v0, root_dir, exit_pos, sol) ==> sol.len()
            >= bound
}

/// Every short-enough solving sequence has a live prefix in the queue.
pub open spec fn all_solutions_tracked(
    m0: Seq<Seq<Tile>>,
    w: int,
    h: int,
    gp: Pos,
    v0: Set<(int, int)>,
    root_dir: Direction,
    exit_pos: Pos,
    q: Seq<SearchState>,
) -> bool {
    forall|sol: Seq<Direction>|
        #[trigger] solving_sequence(m0, w, h, gp, v0, root_dir, exit_pos, sol) && sol.len()
            <= TOP_SOLUTION_SIZE ==> live_prefix(q, sol)
}

/// Every short-enough solving sequence has a live prefix in the queue, or
/// continues the popped branch with a heading not yet expanded.
pub open spec fn tracked_or_pending(
    m0: Seq<Seq<Tile>>,
    w: int,
    h: int,
    gp: Pos,
    v0: Set<(int, int)>,
    root_dir: Direction,
    exit_pos: Pos,
    q: Seq<SearchState>,
    sigma: SearchState,
    vec: Seq<Direction>,
    k: int,
) -> bool {
    forall|sol: Seq<Direction>|
        #[trigger] solving_sequence(m0, w, h, gp, v0, root_dir, exit_pos, sol) && sol.len()
            <= TOP_SOLUTION_SIZE ==> live_prefix(q, sol) || (sigma_prefix(sigma, sol) && exists|
            j: int,
        |
            k <= j < vec.len() && vec[j] == sol[sigma.path@.len() as int])
}


/// At a pop, every tracked solution either stays live in the remaining
/// queue or continues the popped branch with one of its headings.
proof fn lemma_tracking_at_pop(
    m0: Seq<Seq<Tile>>,
    w: int,
    h: int,
    gp: Pos,
    iv: Set<(int, int)>,
    gd: Direction,
    exit_pos: Pos,
    q_start: Seq<SearchState>,
    sigma: SearchState,
    vec: Seq<Direction>,
)
    requires
        all_solutions_tracked(m0, w, h, gp, iv, gd, exit_pos, q_start),
        q_start.len() >= 1,
        q_start[0] == sigma,
        sigma.root_direction == gd,
        sigma.path@.len() == 0 ==> vec == seq![sigma.root_direction],
        sigma.path@.len() > 0 && sigma.last_board_change ==> vec == seq![
            Direction::North,
            Direction::East,
            Direction::South,
            Direction::West,
        ],
        sigma.path@.len() > 0 && !sigma.last_board_change ==> vec == seq![
            sigma.path@.last().0.spec_left(),
            sigma.path@.last().0.spec_right(),
        ],
        sigma.path@.len() > 0 ==> sigma.last_board_change == replay_last_changed(
            m0,
            w,
            h,
            gp.x as int,
            gp.y as int,
            iv,
            sigma.dirs(),
        ),
    ensures
        tracked_or_pending(
            m0,
            w,
            h,
            gp,
            iv,
            gd,
            exit_pos,
            q_start.subrange(1, q_start.len() as int),
            sigma,
            vec,
            0,
        ),
{
    let rest = q_start.subrange(1, q_start.len() as int);
    assert forall|sol: Seq<Direction>|
        #[trigger] solving_sequence(m0, w, h, gp, iv, gd, exit_pos, sol) && sol.len()
            <= TOP_SOLUTION_SIZE implies live_prefix(rest, sol) || (sigma_prefix(sigma, sol)
        && exists|j: int| 0 <= j < vec.len() && vec[j] == sol[sigma.path@.len() as int]) by {
        assert(live_prefix(q_start, sol));
        if sigma_prefix(sigma, sol) {
            let n = sigma.path@.len() as int;
            assert(step_allowed(m0, w, h, gp.x as int, gp.y as int, iv, gd, sol, n));
            if n == 0 {
                assert(vec[0] == sol[n]);
            } else {
                assert(sol.take(n)[n - 1] == sol[n - 1]);
                assert(sigma.dirs()[n - 1] == sigma.path@[n - 1].0);
                assert(sol[n - 1] == sigma.path@.last().0);
                assert(sigma.dirs() == sol.take(n));
                if sigma.last_board_change {
                    match sol[n] {
                        Direction::North => {
                            assert(vec[0] == sol[n]);
                        },
                        Direction::East => {
                            assert(vec[1] == sol[n]);
                        },
                        Direction::South => {
                            assert(vec[2] == sol[n]);
                        },
                        Direction::West => {
                            assert(vec[3] == sol[n]);
                        },
                    }
                } else {
                    assert(!replay_last_changed(m0, w, h, gp.x as int, gp.y as int, iv, sol.take(n)));
                    assert(sol[n] == sol[n - 1].spec_left() || sol[n] == sol[n - 1].spec_right());
                    if sol[n] == sol[n - 1].spec_left() {
                        assert(vec[0] == sol[n]);
                    } else {
                        assert(vec[1] == sol[n]);
                    }
                }
            }
        } else {
            lemma_live_prefix_drop(q_start, sol);
        }
    }
}

/// A refused step cannot continue any tracked solution, so the pending
/// index moves on.
proof fn lemma_tracking_step_refused(
    m0: Seq<Seq<Tile>>,
    w: int,
    h: int,
    gp: Pos,
    iv: Set<(int, int)>,
    gd: Direction,
    exit_pos: Pos,
    q: Seq<SearchState>,
    sigma: SearchState,
    vec: Seq<Direction>,
    k0: int,
)
    requires
        tracked_or_pending(m0, w, h, gp, iv, gd, exit_pos, q, sigma, vec, k0),
        0 <= k0 < vec.len(),
        spec_replay(m0, w, h, gp.x as int, gp.y as int, iv, sigma.dirs()) == Option::Some(
            (
                sigma.board.map@,
                sigma.spec_pos().x as int,
                sigma.spec_pos().y as int,
                vset(sigma.visitations),
            ),
        ),
        spec_step_once(
            sigma.board.map@,
            w,
            h,
            sigma.spec_pos().x as int,
            sigma.spec_pos().y as int,
            vset(sigma.visitations),
            vec[k0],
        ) is None,
    ensures
        tracked_or_pending(m0, w, h, gp, iv, gd, exit_pos, q, sigma, vec, k0 + 1),
{
    assert forall|sol: Seq<Direction>|
        #[trigger] solving_sequence(m0, w, h, gp, iv, gd, exit_pos, sol) && sol.len()
            <= TOP_SOLUTION_SIZE implies live_prefix(q, sol) || (sigma_prefix(sigma, sol)
        && exists|j: int| k0 + 1 <= j < vec.len() && vec[j] == sol[sigma.path@.len() as int]) by {
        if !live_prefix(q, sol) {
            let n = sigma.path@.len() as int;
            let j = choose|j: int| k0 <= j < vec.len() && vec[j] == sol[n];
            if j == k0 {
                lemma_replay_prefix(m0, w, h, gp.x as int, gp.y as int, iv, sol, n + 1);
                lemma_replay_snoc(m0, w, h, gp.x as int, gp.y as int, iv, sol.take(n), sol[n]);
                assert(sol.take(n).push(sol[n]) =~= sol.take(n + 1));
                assert(sigma.dirs() == sol.take(n));
                assert(false);
            }
        }
    }
}

/// A pushed child that is not on the exit keeps every tracked solution
/// live: either it was live already, or the child is its next prefix.
proof fn lemma_tracking_step_pushed(
    m0: Seq<Seq<Tile>>,
    w: int,
    h: int,
    gp: Pos,
    iv: Set<(int, int)>,
    gd: Direction,
    exit_pos: Pos,
    q_before: Seq<SearchState>,
    sigma: SearchState,
    child: SearchState,
    vec: Seq<Direction>,
    k0: int,
)
    requires
        tracked_or_pending(m0, w, h, gp, iv, gd, exit_pos, q_before, sigma, vec, k0),
        0 <= k0 < vec.len(),
        child.path@.len() == sigma.path@.len() + 1,
        child.dirs() == sigma.dirs().push(vec[k0]),
        spec_replay(m0, w, h, gp.x as int, gp.y as int, iv, child.dirs()) == Option::Some(
            (
                child.board.map@,
                child.spec_pos().x as int,
                child.spec_pos().y as int,
                vset(child.visitations),
            ),
        ),
        (child.spec_pos().x as int, child.spec_pos().y as int) != (
            exit_pos.x as int,
            exit_pos.y as int,
        ),
    ensures
        tracked_or_pending(
            m0,
            w,
            h,
            gp,
            iv,
            gd,
            exit_pos,
            q_before.push(child),
            sigma,
            vec,
            k0 + 1,
        ),
{
    lemma_live_prefix_push(q_before, child);
    assert forall|sol: Seq<Direction>|
        #[trigger] solving_sequence(m0, w, h, gp, iv, gd, exit_pos, sol) && sol.len()
            <= TOP_SOLUTION_SIZE implies live_prefix(q_before.push(child), sol) || (sigma_prefix(
        sigma,
        sol,
    ) && exists|j: int| k0 + 1 <= j < vec.len() && vec[j] == sol[sigma.path@.len() as int]) by {
        if !live_prefix(q_before, sol) {
            if sigma_prefix(sigma, sol) {
                let n = sigma.path@.len() as int;
                let j = choose|j: int| k0 <= j < vec.len() && vec[j] == sol[n];
                if j == k0 {
                    assert(sigma.dirs() == sol.take(n));
                    assert(child.dirs() =~= sol.take(n + 1));
                    if n + 1 == sol.len() {
                        assert(sol.take(n + 1) =~= sol);
                        assert(false);
                    }
                    assert(sigma_prefix(child, sol));
                    assert(live_prefix(q_before.push(child), sol));
                }
            }
        }
    }
}

/// A child past the depth cap that is not on the exit continues no tracked
/// solution within the cap.
proof fn lemma_tracking_step_overlong(
    m0: Seq<Seq<Tile>>,
    w: int,
    h: int,
    gp: Pos,
    iv: Set<(int, int)>,
    gd: Direction,
    exit_pos: Pos,
    q: Seq<SearchState>,
    sigma: SearchState,
    child: SearchState,
    vec: Seq<Direction>,
    k0: int,
)
    requires
        tracked_or_pending(m0, w, h, gp, iv, gd, exit_pos, q, sigma, vec, k0),
        0 <= k0 < vec.len(),
        child.path@.len() == sigma.path@.len() + 1,
        child.dirs() == sigma.dirs().push(vec[k0]),
        spec_replay(m0, w, h, gp.x as int, gp.y as int, iv, child.dirs()) == Option::Some(
            (
                child.board.map@,
                child.spec_pos().x as int,
                child.spec_pos().y as int,
                vset(child.visitations),
            ),
        ),
        (child.spec_pos().x as int, child.spec_pos().y as int) != (
            exit_pos.x as int,
            exit_pos.y as int,
        ),
        child.path@.len() >= TOP_SOLUTION_SIZE,
    ensures
        tracked_or_pending(m0, w, h, gp, iv, gd, exit_pos, q, sigma, vec, k0 + 1),
{
    assert forall|sol: Seq<Direction>|
        #[trigger] solving_sequence(m0, w, h, gp, iv, gd, exit_pos, sol) && sol.len()
            <= TOP_SOLUTION_SIZE implies live_prefix(q, sol) || (sigma_prefix(sigma, sol)
        && exists|j: int| k0 + 1 <= j < vec.len() && vec[j] == sol[sigma.path@.len() as int]) by {
        if !live_prefix(q, sol) {
            if sigma_prefix(sigma, sol) {
                let n = sigma.path@.len() as int;
                let j = choose|j: int| k0 <= j < vec.len() && vec[j] == sol[n];
                if j == k0 {
                    assert(sigma.dirs() == sol.take(n));
                    assert(child.dirs() =~= sol.take(n + 1));
                    if n + 1 == sol.len() {
                        assert(sol.take(n + 1) =~= sol);
                        assert(false);
                    }
                    assert(n + 1 < sol.len());
                    assert(false);
                }
            }
        }
    }
}

/// The first recorded solution is as short as any: every tracked solution
/// reaches at least as deep as the recording branch.
proof fn lemma_first_solution_minimal(
    m0: Seq<Seq<Tile>>,
    w: int,
    h: int,
    gp: Pos,
    iv: Set<(int, int)>,
    gd: Direction,
    exit_pos: Pos,
    q: Seq<SearchState>,
    sigma: SearchState,
    vec: Seq<Direction>,
    k0: int,
    best: int,
)
    requires
        tracked_or_pending(m0, w, h, gp, iv, gd, exit_pos, q, sigma, vec, k0),
        best == sigma.path@.len() + 1,
        best <= TOP_SOLUTION_SIZE,
        forall|i: int|
            0 <= i < q.len() ==> (#[trigger] q[i]).path@.len() >= sigma.path@.len(),
    ensures
        no_solution_below(m0, w, h, gp, iv, gd, exit_pos, best),
{
    assert forall|sol: Seq<Direction>|
        #[trigger] solving_sequence(m0, w, h, gp, iv, gd, exit_pos, sol) implies sol.len()
        >= best by {
        if sol.len() < best {
            assert(sol.len() <= TOP_SOLUTION_SIZE);
            if live_prefix(q, sol) {
                let i = choose|i: int|
                    0 <= i < q.len() && sigma_prefix(#[trigger] q[i], sol);
                assert(q[i].path@.len() < sol.len());
                assert(false);
            } else {
                assert(sigma_prefix(sigma, sol));
                assert(sigma.path@.len() < sol.len());
                assert(false);
            }
        }
    }
}

/// With the queue drained and no solution found, no solving sequence fits
/// the depth cap.
proof fn lemma_exhausted_means_unsolvable(
    m0: Seq<Seq<Tile>>,
    w: int,
    h: int,
    gp: Pos,
    iv: Set<(int, int)>,
    gd: Direction,
    exit_pos: Pos,
    q: Seq<SearchState>,
)
    requires
        all_solutions_tracked(m0, w, h, gp, iv, gd, exit_pos, q),
        q.len() == 0,
    ensures
        forall|sol: Seq<Direction>|
            #[trigger] solving_sequence(m0, w, h, gp, iv, gd, exit_pos, sol) ==> sol.len()
                > TOP_SOLUTION_SIZE,
{
    assert forall|sol: Seq<Direction>|
        #[trigger] solving_sequence(m0, w, h, gp, iv, gd, exit_pos, sol) implies sol.len()
        > TOP_SOLUTION_SIZE by {
        if sol.len() <= TOP_SOLUTION_SIZE {
            assert(live_prefix(q, sol));
            let i = choose|i: int| 0 <= i < q.len() && sigma_prefix(#[trigger] q[i], sol);
            assert(false);
        }
    }
}

/// The weight of one queued branch in the search's termination potential:
/// shallower branches weigh exponentially more, since each can spawn at
/// most four deeper ones.
pub open spec fn pot1(s: SearchState) -> int {
    vstd::arithmetic::power::pow(
        5,
        (if s.path@.len() <= 16 {
            16 - s.path@.len()
        } else {
            0
        }) as nat,
    )
}

/// The termination potential of the whole search queue.
pub open spec fn pot(q: Seq<SearchState>) -> int
    decreases q.len(),
{
    if q.len() == 0 {
        0
    } else {
        pot1(q[0]) + pot(q.drop_first())
    }
}

pub proof fn lemma_pot_nonneg(q: Seq<SearchState>)
    ensures
        pot(q) >= 0,
    decreases q.len(),
{
    if q.len() > 0 {
        vstd::arithmetic::power::lemma_pow_positive(5, (if q[0].path@.len() <= 16 {
            16 - q[0].path@.len()
        } else {
            0
        }) as nat);
        lemma_pot_nonneg(q.drop_first());
    }
}

pub proof fn lemma_pot_push(q: Seq<SearchState>, s: SearchState)
    ensures
        pot(q.push(s)) == pot(q) + pot1(s),
    decreases q.len(),
{
    if q.len() == 0 {
        assert(q.push(s)[0] == s);
        assert(q.push(s).drop_first() =~= Seq::<SearchState>::empty());
        assert(pot(q.push(s)) == pot1(s) + pot(q.push(s).drop_first()));
        assert(pot(Seq::<SearchState>::empty()) == 0);
    } else {
        assert(q.push(s)[0] == q[0]);
        assert(q.push(s).drop_first() =~= q.drop_first().push(s));
        lemma_pot_push(q.drop_first(), s);
        assert(pot(q.push(s)) == pot1(q[0]) + pot(q.drop_first().push(s)));
        assert(pot(q) == pot1(q[0]) + pot(q.drop_first()));
    }
}

/// One branch of a run of the search on `m0` with gates `gates`, entered at
/// gate `entry`: the branch is internally consistent and is exactly what
/// replaying its own move list from the entry gate yields.
pub open spec fn state_inv(
    s: SearchState,
    m0: Seq<Seq<Tile>>,
    w: int,
    h: int,
    gates: Seq<crate::gate::GateEntry>,
    entry: int,
    iv: Set<(int, int)>,
) -> bool {
    &&& s.wf()
    &&& s.board.map.spec_width() == w
    &&& s.board.map.spec_height() == h
    &&& s.board.gates@ == gates
    &&& s.root_position == gates[entry].pos
    &&& s.root_direction == gates[entry].inwards_direction
    &&& s.path@.len() > 0 ==> s.dirs()[0] == gates[entry].inwards_direction
    &&& s.path@.len() > 0 ==> s.last_board_change == replay_last_changed(
        m0,
        w,
        h,
        gates[entry].pos.x as int,
        gates[entry].pos.y as int,
        iv,
        s.dirs(),
    )
    &&& spec_replay(m0, w, h, gates[entry].pos.x as int, gates[entry].pos.y as int, iv, s.dirs())
        == Option::Some(
        (s.board.map@, s.spec_pos().x as int, s.spec_pos().y as int, vset(s.visitations)),
    )
}

/// A recorded solution of tier `t`: it takes `best + t` moves, replays
/// cleanly from the entry gate against the original grid, and ends on the
/// exit gate's cell.
pub open spec fn tier_route_ok(
    route: Route,
    m0: Seq<Seq<Tile>>,
    w: int,
    h: int,
    gx: int,
    gy: int,
    entry_dir: Direction,
    exit_pos: Pos,
    best: int,
    t: int,
) -> bool {
    &&& 1 <= route.solution@.len() <= MAX_PATH
    &&& route.solution@.len() == best + t
    &&& route.solution@[0].0 == entry_dir
    &&& route.solution@.last().1 == exit_pos
    &&& route_solves(m0, w, h, gx, gy, route.solution@)
}

/// Explores move sequences from the entry gate breadth-first, branching on
/// the headings the turn rule allows, eroding weak walls and pushing boxes
/// on private board snapshots, and classifies the routes that reach the
/// exit gate by how many moves past the optimum they take.
///
/// On success, tier `t` of the result holds routes of exactly
/// `optimal_movement_count + t` moves, the optimal tier is never empty,
/// every reported route replays cleanly against the original room to the
/// exit gate, and no solving sequence is shorter than the reported
/// optimum. The search reports the room unsolvable only when no solving
/// sequence fits the depth cap (`solving_sequence`: turn-rule-abiding,
/// loop-free, first resting on the exit cell at its end).
#[verifier::loop_isolation(false)]
#[verifier::rlimit(100)]
pub fn analyze(initial_board: &Board, entry_gate_id: usize, exit_gate_id: usize) -> (r: Result<
    Analysis,
    String,
>)
    requires
        initial_board.wf(),
        entry_gate_id < initial_board.gates@.len(),
        exit_gate_id < initial_board.gates@.len(),
    ensures
        match r {
            Result::Ok(analysis) => {
                &&& analysis.routes@.len() == EXTRA_MOVES_SEARCH_MARGIN
                &&& analysis.routes@[0]@.len() >= 1
                &&& 1 <= analysis.optimal_movement_count <= TOP_SOLUTION_SIZE
                &&& forall|t: int, j: int|
                    0 <= t < analysis.routes@.len() && 0 <= j < analysis.routes@[t]@.len()
                        ==> tier_route_ok(
                        #[trigger] analysis.routes@[t]@[j],
                        initial_board.map@,
                        initial_board.map.spec_width(),
                        initial_board.map.spec_height(),
                        initial_board.gates@[entry_gate_id as int].pos.x as int,
                        initial_board.gates@[entry_gate_id as int].pos.y as int,
                        initial_board.gates@[entry_gate_id as int].inwards_direction,
                        initial_board.gates@[exit_gate_id as int].pos,
                        analysis.optimal_movement_count as int,
                        t,
                    )
            },
            Result::Err(_) => true,
        },
        r is Err ==> forall|sol: Seq<Direction>|
            #[trigger] solving_sequence(
                initial_board.map@,
                initial_board.map.spec_width(),
                initial_board.map.spec_height(),
                initial_board.gates@[entry_gate_id as int].pos,
                entry_epoch(initial_board.gates@[entry_gate_id as int].pos),
                initial_board.gates@[entry_gate_id as int].inwards_direction,
                initial_board.gates@[exit_gate_id as int].pos,
                sol,
            ) ==> sol.len() > TOP_SOLUTION_SIZE,
        r matches Result::Ok(analysis) ==> forall|sol: Seq<Direction>|
            #[trigger] solving_sequence(
                initial_board.map@,
                initial_board.map.spec_width(),
                initial_board.map.spec_height(),
                initial_board.gates@[entry_gate_id as int].pos,
                entry_epoch(initial_board.gates@[entry_gate_id as int].pos),
                initial_board.gates@[entry_gate_id as int].inwards_direction,
                initial_board.gates@[exit_gate_id as int].pos,
                sol,
            ) ==> sol.len() >= analysis.optimal_movement_count,
{
    let ghost m0 = initial_board.map@;
    let ghost w = initial_board.map.spec_width();
    let ghost h = initial_board.map.spec_height();
    let ghost gates = initial_board.gates@;
    let ghost gp = initial_board.gates@[entry_gate_id as int].pos;
    let ghost gd = initial_board.gates@[entry_gate_id as int].inwards_direction;
    let exit_pos = initial_board.get_gate_position(exit_gate_id);

    let mut initial_visitations = Visitations::new(
        initial_board.map.get_width(),
        initial_board.map.get_height(),
    );
    proof {
        lemma_vset_empty(initial_visitations);
    }
    let ghost pre_insert = initial_visitations;
    let entry_pos = initial_board.get_gate_position(entry_gate_id);
    initial_visitations.insert(&entry_pos);
    proof {
        lemma_vset_insert(pre_insert, initial_visitations, entry_pos);
    }
    let ghost iv = vset(initial_visitations);
    proof {
        assert(iv =~= entry_epoch(gp));
    }

    let first = SearchState {
        tile_length: 0,
        path: Vec::new(),
        root_direction: initial_board.get_gate_direction(entry_gate_id),
        root_position: entry_pos,
        visitations: initial_visitations,
        board: initial_board.clone(),
        broken_walls: 0,
        hitted_boxes: 0,
        last_board_change: false,
    };
    let mut states: std::collections::VecDeque<SearchState> =
        std::collections::VecDeque::new();
    states.push_back(first);
    proof {
        assert forall|sol: Seq<Direction>|
            #[trigger] solving_sequence(m0, w, h, gp, iv, gd, exit_pos, sol) && sol.len()
                <= TOP_SOLUTION_SIZE implies live_prefix(states@, sol) by {
            assert(first.dirs() =~= sol.take(0));
            assert(sigma_prefix(first, sol));
            assert(states@[0] == first);
        }
        assert(all_solutions_tracked(m0, w, h, gp, iv, gd, exit_pos, states@));
    }

    let mut tier0: Vec<Route> = Vec::new();
    let mut tier1: Vec<Route> = Vec::new();
    let mut tier2: Vec<Route> = Vec::new();
    let mut best_movement_count: Option<usize> = Option::None;
    let ghost mut ghost_best: int = 0;
    let ghost mut lo: int = 0;

    while states.len() > 0
        invariant
            forall|i: int|
                0 <= i < states@.len() ==> state_inv(
                    #[trigger] states@[i],
                    m0,
                    w,
                    h,
                    gates,
                    entry_gate_id as int,
                    iv,
                ),
            forall|i: int, j: int|
                0 <= i <= j < states@.len() ==> (#[trigger] states@[i]).path@.len() <= (
                #[trigger] states@[j]).path@.len(),
            forall|i: int|
                0 <= i < states@.len() ==> lo <= (#[trigger] states@[i]).path@.len() <= lo + 1,
            0 <= lo <= TOP_SOLUTION_SIZE + 2,
            match best_movement_count {
                Option::Some(b) => {
                    &&& b as int == ghost_best
                    &&& 1 <= ghost_best <= TOP_SOLUTION_SIZE
                    &&& ghost_best <= lo + 1
                    &&& lo <= ghost_best + 1
                    &&& forall|i: int|
                        0 <= i < states@.len() ==> (#[trigger] states@[i]).path@.len()
                            <= ghost_best + 1
                    &&& tier0@.len() >= 1
                    &&& no_solution_below(m0, w, h, gp, iv, gd, exit_pos, ghost_best)
                },
                Option::None => {
                    &&& forall|i: int|
                        0 <= i < states@.len() ==> (#[trigger] states@[i]).path@.len()
                            <= TOP_SOLUTION_SIZE - 1
                    &&& tier0@.len() == 0
                    &&& tier1@.len() == 0
                    &&& tier2@.len() == 0
                    &&& all_solutions_tracked(m0, w, h, gp, iv, gd, exit_pos, states@)
                },
            },
            forall|j: int|
                0 <= j < tier0@.len() ==> tier_route_ok(
                    #[trigger] tier0@[j],
                    m0,
                    w,
                    h,
                    gp.x as int,
                    gp.y as int,
                    gd,
                    exit_pos,
                    ghost_best,
                    0,
                ),
            forall|j: int|
                0 <= j < tier1@.len() ==> tier_route_ok(
                    #[trigger] tier1@[j],
                    m0,
                    w,
                    h,
                    gp.x as int,
                    gp.y as int,
                    gd,
                    exit_pos,
                    ghost_best,
                    1,
                ),
            forall|j: int|
                0 <= j < tier2@.len() ==> tier_route_ok(
                    #[trigger] tier2@[j],
                    m0,
                    w,
                    h,
                    gp.x as int,
                    gp.y as int,
                    gd,
                    exit_pos,
                    ghost_best,
                    2,
                ),
        decreases pot(states@),
    {
        let ghost q_start = states@;
        let state = states.pop_front().unwrap();
        proof {
            lo = state.path@.len() as int;
            assert(q_start.drop_first() =~= states@);
            lemma_pot_nonneg(states@);
        }
        let ghost p_after_pop = pot(states@);
        let ghost pow_child = pot1_of_len(state.path@.len() + 1);

        let dirs = state.next_posible_directions();
        proof {
            if best_movement_count is None {
                lemma_tracking_at_pop(m0, w, h, gp, iv, gd, exit_pos, q_start, state, dirs@);
                assert(q_start.subrange(1, q_start.len() as int) =~= states@);
                assert(tracked_or_pending(
                    m0,
                    w,
                    h,
                    gp,
                    iv,
                    gd,
                    exit_pos,
                    states@,
                    state,
                    dirs@,
                    0,
                ));
            }
        }
        let mut k: usize = 0;
        let ghost mut pushes: int = 0;
        while k < dirs.len()
            invariant
                k <= dirs@.len(),
                0 <= pushes <= k,
                lo == state.path@.len(),
                pot(states@) <= p_after_pop + pushes * pow_child,
                forall|i: int|
                    0 <= i < states@.len() ==> state_inv(
                        #[trigger] states@[i],
                        m0,
                        w,
                        h,
                        gates,
                        entry_gate_id as int,
                        iv,
                    ),
                forall|i: int, j: int|
                    0 <= i <= j < states@.len() ==> (#[trigger] states@[i]).path@.len() <= (
                    #[trigger] states@[j]).path@.len(),
                forall|i: int|
                    0 <= i < states@.len() ==> lo <= (#[trigger] states@[i]).path@.len() <= lo
                        + 1,
                match best_movement_count {
                    Option::Some(b) => {
                        &&& b as int == ghost_best
                        &&& 1 <= ghost_best <= TOP_SOLUTION_SIZE
                        &&& ghost_best <= lo + 1
                        &&& lo <= ghost_best + 1
                        &&& forall|i: int|
                            0 <= i < states@.len() ==> (#[trigger] states@[i]).path@.len()
                                <= ghost_best + 1
                        &&& tier0@.len() >= 1
                        &&& no_solution_below(m0, w, h, gp, iv, gd, exit_pos, ghost_best)
                    },
                    Option::None => {
                        &&& lo <= TOP_SOLUTION_SIZE - 1
                        &&& forall|i: int|
                            0 <= i < states@.len() ==> (#[trigger] states@[i]).path@.len()
                                <= TOP_SOLUTION_SIZE - 1
                        &&& tier0@.len() == 0
                        &&& tier1@.len() == 0
                        &&& tier2@.len() == 0
                        &&& tracked_or_pending(
                            m0,
                            w,
                            h,
                            gp,
                            iv,
                            gd,
                            exit_pos,
                            states@,
                            state,
                            dirs@,
                            k as int,
                        )
                    },
                },
                forall|j: int|
                    0 <= j < tier0@.len() ==> tier_route_ok(
                        #[trigger] tier0@[j],
                        m0,
                        w,
                        h,
                        gp.x as int,
                        gp.y as int,
                        gd,
                        exit_pos,
                        ghost_best,
                        0,
                    ),
                forall|j: int|
                    0 <= j < tier1@.len() ==> tier_route_ok(
                        #[trigger] tier1@[j],
                        m0,
                        w,
                        h,
                        gp.x as int,
                        gp.y as int,
                        gd,
                        exit_pos,
                        ghost_best,
                        1,
                    ),
                forall|j: int|
                    0 <= j < tier2@.len() ==> tier_route_ok(
                        #[trigger] tier2@[j],
                        m0,
                        w,
                        h,
                        gp.x as int,
                        gp.y as int,
                        gd,
                        exit_pos,
                        ghost_best,
                        2,
                    ),
            decreases dirs@.len() - k,
        {
            let dir = dirs[k];
            let ghost k0 = k as int;
            k = k + 1;
            let stepped = state.step(&dir);
            let new_state = match stepped {
                Result::Ok(ns) => ns,
                Result::Err(_) => {
                    proof {
                        if best_movement_count is None {
                            lemma_tracking_step_refused(
                                m0,
                                w,
                                h,
                                gp,
                                iv,
                                gd,
                                exit_pos,
                                states@,
                                state,
                                dirs@,
                                k0,
                            );
                        }
                    }
                    continue ;
                },
            };
            proof {
                lemma_replay_snoc(
                    m0,
                    w,
                    h,
                    gp.x as int,
                    gp.y as int,
                    iv,
                    state.dirs(),
                    dir,
                );
                assert(state.dirs().push(dir) =~= new_state.dirs());
                assert(new_state.dirs().take(new_state.dirs().len() - 1) =~= state.dirs());
                assert(new_state.dirs().last() == dir);
                assert(new_state.last_board_change == replay_last_changed(
                    m0,
                    w,
                    h,
                    gp.x as int,
                    gp.y as int,
                    iv,
                    new_state.dirs(),
                ));
            }

            let new_pos = new_state.get_position();
            if new_pos.x == exit_pos.x && new_pos.y == exit_pos.y {
                let ghost was_none = best_movement_count is None;
                let new_len = new_state.path.len();
                let b: usize = match best_movement_count {
                    Option::Some(bb) => bb,
                    Option::None => {
                        best_movement_count = Option::Some(new_len);
                        proof {
                            ghost_best = new_len as int;
                        }
                        new_len
                    },
                };
                proof {
                    lemma_replay_monotonic(
                        m0,
                        w,
                        h,
                        gp.x as int,
                        gp.y as int,
                        Set::empty(),
                        iv,
                        new_state.dirs(),
                    );
                }
                proof {
                    assert(ghost_best <= new_state.path@.len());
                    assert(new_state.path@.len() <= ghost_best + 2);
                    assert(route_solves(m0, w, h, gp.x as int, gp.y as int, new_state.path@));
                    assert(new_state.path@.last().1 == exit_pos);
                    assert(new_state.dirs()[0] == gd) by {
                        if state.path@.len() == 0 {
                            assert(dirs@ == seq![state.root_direction]);
                        } else {
                            assert(new_state.dirs()[0] == state.dirs()[0]);
                        }
                    }
                    assert(new_state.path@[0].0 == new_state.dirs()[0]);
                }
                proof {
                    if was_none {
                        lemma_first_solution_minimal(
                            m0,
                            w,
                            h,
                            gp,
                            iv,
                            gd,
                            exit_pos,
                            states@,
                            state,
                            dirs@,
                            k0,
                            ghost_best,
                        );
                    }
                }
                let route = Route { solution: new_state.path };
                let idx = new_len - b;
                if idx == 0 {
                    tier0.push(route);
                } else if idx == 1 {
                    tier1.push(route);
                } else {
                    tier2.push(route);
                }
            } else {
                let should_push: bool = match best_movement_count {
                    Option::Some(bb) => new_state.path.len() < bb + EXTRA_MOVES_SEARCH_MARGIN
                        - 1,
                    Option::None => TOP_SOLUTION_SIZE > new_state.path.len(),
                };
                if should_push {
                    let ghost q_before = states@;
                    proof {
                        lemma_pot_push(states@, new_state);
                    }
                    states.push_back(new_state);
                    proof {
                        pushes = pushes + 1;
                        assert((pushes - 1) * pow_child + pow_child == pushes * pow_child)
                            by (nonlinear_arith);
                        if best_movement_count is None {
                            lemma_tracking_step_pushed(
                                m0,
                                w,
                                h,
                                gp,
                                iv,
                                gd,
                                exit_pos,
                                q_before,
                                state,
                                new_state,
                                dirs@,
                                k0,
                            );
                        }
                    }
                } else {
                    proof {
                        if best_movement_count is None {
                            lemma_tracking_step_overlong(
                                m0,
                                w,
                                h,
                                gp,
                                iv,
                                gd,
                                exit_pos,
                                states@,
                                state,
                                new_state,
                                dirs@,
                                k0,
                            );
                        }
                    }
                }
            }
        }
        proof {
            vstd::arithmetic::power::lemma_pow_positive(
                5,
                (16 - (state.path@.len() + 1)) as nat,
            );
            vstd::arithmetic::mul::lemma_mul_inequality(pushes, 4, pow_child);
            assert(pot1(state) == 5 * pow_child) by {
                vstd::arithmetic::power::lemma_pow_adds(
                    5,
                    1nat,
                    (16 - (state.path@.len() + 1)) as nat,
                );
                vstd::arithmetic::power::lemma_pow0(5);
                vstd::arithmetic::power::lemma_pow1(5);
            }
            lemma_pot_nonneg(states@);
            assert(pot(states@) < pot(q_start));
            if best_movement_count is None {
                assert forall|sol: Seq<Direction>|
                    #[trigger] solving_sequence(m0, w, h, gp, iv, gd, exit_pos, sol)
                        && sol.len() <= TOP_SOLUTION_SIZE implies live_prefix(states@, sol) by {
                    if !live_prefix(states@, sol) {
                        let j = choose|j: int|
                            k as int <= j < dirs@.len() && dirs@[j] == sol[state.path@.len() as int];
                        assert(false);
                    }
                }
                assert(all_solutions_tracked(m0, w, h, gp, iv, gd, exit_pos, states@));
            }
        }
    }

    match best_movement_count {
        Option::Some(max_movement) => {
            let mut routes: Vec<Vec<Route>> = Vec::new();
            routes.push(tier0);
            routes.push(tier1);
            routes.push(tier2);
            Result::Ok(Analysis { optimal_movement_count: max_movement, routes })
        },
        Option::None => {
            proof {
                lemma_exhausted_means_unsolvable(m0, w, h, gp, iv, gd, exit_pos, states@);
            }
            Result::Err("Unsolvable room".to_string())
        },
    }
}


/// Helper weight of a branch of the given depth.
pub open spec fn pot1_of_len(len: nat) -> int {
    vstd::arithmetic::power::pow(
        5,
        (if len <= 16 {
            16 - len
        } else {
            0
        }) as nat,
    )
}

/// Relies on itertools' tuple_windows: the list of consecutive pairs of
/// the move list, in order.
#[verifier::external_body]
fn route_windows(v: &Vec<(Direction, Pos)>) -> (r: Vec<((Direction, Pos), (Direction, Pos))>)
    ensures
        v@.len() >= 1 ==> r@.len() == v@.len() - 1,
        v@.len() == 0 ==> r@.len() == 0,
        forall|i: int| 0 <= i < r@.len() ==> r@[i] == (v@[i], v@[i + 1]),
{
    v.iter().cloned().tuple_windows().collect()
}

/// The taxicab length of one leg of a route.
pub open spec fn leg_size(a: Pos, b: Pos) -> int {
    (if b.x >= a.x {
        b.x - a.x
    } else {
        a.x - b.x
    }) + (if b.y >= a.y {
        b.y - a.y
    } else {
        a.y - b.y
    })
}

/// The route statistics after the first `k` legs: total travelled length,
/// number of legs longer than three cells, weak walls and boxes struck
/// straight on, and open side turns.
pub open spec fn route_stats(
    m: Seq<Seq<Tile>>,
    w: int,
    h: int,
    sol: Seq<(Direction, Pos)>,
    k: int,
) -> (int, int, int, int, int)
    decreases k,
{
    if k <= 0 {
        (0, 0, 0, 0, 0)
    } else {
        let prev = route_stats(m, w, h, sol, k - 1);
        let a = sol[k - 1];
        let b = sol[k];
        let size = leg_size(a.1, b.1);
        let same = a.0 == b.0;
        let ahead = gview_at(
            m,
            w,
            h,
            a.1.x + b.0.spec_vector().x,
            a.1.y + b.0.spec_vector().y,
        );
        let rvx = b.0.spec_right().spec_vector().x as int;
        let rvy = b.0.spec_right().spec_vector().y as int;
        let lvx = b.0.spec_left().spec_vector().x as int;
        let lvy = b.0.spec_left().spec_vector().y as int;
        let right_open = !gview_at(m, w, h, a.1.x + rvx, a.1.y + rvy).spec_stops_player_during_gameplay(false)
            && !gview_at(m, w, h, a.1.x + 2 * rvx, a.1.y + 2 * rvy).spec_stops_player_during_gameplay(false);
        let left_open = !gview_at(m, w, h, a.1.x + lvx, a.1.y + lvy).spec_stops_player_during_gameplay(false)
            && !gview_at(m, w, h, a.1.x + 2 * lvx, a.1.y + 2 * lvy).spec_stops_player_during_gameplay(false);
        (
            prev.0 + size,
            prev.1 + if size > 3 {
                1int
            } else {
                0int
            },
            prev.2 + if same && ahead is WeakWall {
                1int
            } else {
                0int
            },
            prev.3 + if same && ahead is Box {
                1int
            } else {
                0int
            },
            prev.4 + (if right_open {
                1int
            } else {
                0int
            }) + (if left_open {
                1int
            } else {
                0int
            }),
        )
    }
}

/// The score of a route under the perfect-path mode: a weighted sum of
/// decision points, long legs, travelled length and move count, divided by
/// one more than the number of mutations the route leans on.
pub open spec fn spec_prefect_path_fitness(
    m: Seq<Seq<Tile>>,
    w: int,
    h: int,
    sol: Seq<(Direction, Pos)>,
) -> int {
    let stats = route_stats(m, w, h, sol, sol.len() - 1);
    (stats.4 * 100 + stats.1 * 10 + stats.0 * 10 + sol.len()) / (stats.2 + stats.3 + 1)
}

/// The score of a route under the any-path mode: decision points and move
/// count alone.
pub open spec fn spec_any_path_fitness(
    m: Seq<Seq<Tile>>,
    w: int,
    h: int,
    sol: Seq<(Direction, Pos)>,
) -> int {
    let stats = route_stats(m, w, h, sol, sol.len() - 1);
    stats.4 * 100 + sol.len()
}

/// Positions a route may mention: coordinates tame enough for the scoring
/// arithmetic.
pub open spec fn route_coords_bounded(sol: Seq<(Direction, Pos)>) -> bool {
    forall|k: int|
        0 <= k < sol.len() ==> -100000 <= (#[trigger] sol[k]).1.x <= 100000 && -100000
            <= sol[k].1.y <= 100000
}

impl Route {
    /// Computes the route's statistics leg by leg.
    #[verifier::loop_isolation(false)]
    #[verifier::rlimit(100)]
    fn stats(&self, tile_map: &TileMap) -> (r: (u64, u64, u64, u64, u64))
        requires
            tile_map.wf(),
            route_coords_bounded(self.solution@),
            self.solution@.len() <= 100000,
        ensures
            r.0 <= 400000 * self.solution@.len(),
            r.1 <= self.solution@.len(),
            r.2 <= self.solution@.len(),
            r.3 <= self.solution@.len(),
            r.4 <= 2 * self.solution@.len(),
            ({
                let st = route_stats(
                    tile_map@,
                    tile_map.spec_width(),
                    tile_map.spec_height(),
                    self.solution@,
                    self.solution@.len() - 1,
                );
                &&& r.0 == st.0
                &&& r.1 == st.1
                &&& r.2 == st.2
                &&& r.3 == st.3
                &&& r.4 == st.4
            }),
    {
        let ghost m = tile_map@;
        let ghost w = tile_map.spec_width();
        let ghost h = tile_map.spec_height();
        let windows = route_windows(&self.solution);
        let mut size_sum: u64 = 0;
        let mut long_legs: u64 = 0;
        let mut weakwalls: u64 = 0;
        let mut boxes: u64 = 0;
        let mut decisions: u64 = 0;
        let mut i: usize = 0;
        while i < windows.len()
            invariant
                i <= windows@.len(),
                windows@.len() <= self.solution@.len(),
                forall|j: int|
                    0 <= j < windows@.len() ==> #[trigger] windows@[j] == (
                        self.solution@[j],
                        self.solution@[j + 1],
                    ),
                route_stats(m, w, h, self.solution@, i as int) == (
                    size_sum as int,
                    long_legs as int,
                    weakwalls as int,
                    boxes as int,
                    decisions as int,
                ),
                size_sum <= 400000 * i,
                long_legs <= i,
                weakwalls <= i,
                boxes <= i,
                decisions <= 2 * i,
            decreases windows@.len() - i,
        {
            let (start, end) = windows[i];
            let size_x: isize = if end.1.x >= start.1.x {
                end.1.x - start.1.x
            } else {
                start.1.x - end.1.x
            };
            let size_y: isize = if end.1.y >= start.1.y {
                end.1.y - start.1.y
            } else {
                start.1.y - end.1.y
            };
            let size: isize = size_x + size_y;
            size_sum = size_sum + (size as u64);
            if size > 3 {
                long_legs = long_legs + 1;
            }
            let same = matches_direction(start.0, end.0);
            if same {
                let ahead = tile_map.at(&start.1.plus(end.0.vector()));
                if matches!(ahead, Tile::WeakWall(_)) {
                    weakwalls = weakwalls + 1;
                }
                if matches!(ahead, Tile::Box) {
                    boxes = boxes + 1;
                }
            }
            let rv = end.0.right().vector();
            let lv = end.0.left().vector();
            if !tile_map.at(&start.1.plus(rv)).stops_player_during_gameplay(false)
                && !tile_map.at(&start.1.plus(rv.scaled(2))).stops_player_during_gameplay(
                false,
            ) {
                decisions = decisions + 1;
            }
            if !tile_map.at(&start.1.plus(lv)).stops_player_during_gameplay(false)
                && !tile_map.at(&start.1.plus(lv.scaled(2))).stops_player_during_gameplay(
                false,
            ) {
                decisions = decisions + 1;
            }
            i = i + 1;
        }
        (size_sum, long_legs, weakwalls, boxes, decisions)
    }

    /// The perfect-path score of this route over the given grid.
    pub fn prefect_path_fitness(&self, tile_map: &TileMap) -> (r: u64)
        requires
            tile_map.wf(),
            route_coords_bounded(self.solution@),
            1 <= self.solution@.len() <= 100000,
        ensures
            r == spec_prefect_path_fitness(
                tile_map@,
                tile_map.spec_width(),
                tile_map.spec_height(),
                self.solution@,
            ),
            r <= 4100000 * self.solution@.len(),
    {
        let (size_sum, long_legs, weakwalls, boxes, decisions) = self.stats(tile_map);
        let positive: u64 = decisions * 100 + long_legs * 10 + size_sum * 10 + (
        self.solution.len() as u64);
        let r = positive / (weakwalls + boxes + 1);
        proof {
            assert(r <= positive) by (nonlinear_arith)
                requires
                    r == positive as int / (weakwalls as int + boxes as int + 1),
                    weakwalls as int >= 0,
                    boxes as int >= 0,
                    positive as int >= 0,
            ;
        }
        r
    }

    /// The any-path score of this route over the given grid.
    pub fn any_path_fitness(&self, tile_map: &TileMap) -> (r: u64)
        requires
            tile_map.wf(),
            route_coords_bounded(self.solution@),
            1 <= self.solution@.len() <= 100000,
        ensures
            r == spec_any_path_fitness(
                tile_map@,
                tile_map.spec_width(),
                tile_map.spec_height(),
                self.solution@,
            ),
            self.solution@.len() <= r <= 300 * self.solution@.len(),
    {
        let (_, _, _, _, decisions) = self.stats(tile_map);
        decisions * 100 + (self.solution.len() as u64)
    }
}

/// Equality test on headings.
fn matches_direction(a: Direction, b: Direction) -> (r: bool)
    ensures
        r == (a == b),
{
    match (a, b) {
        (Direction::North, Direction::North) => true,
        (Direction::South, Direction::South) => true,
        (Direction::East, Direction::East) => true,
        (Direction::West, Direction::West) => true,
        _ => false,
    }
}

/// The smaller of two route scores.
pub open spec fn int_min(a: int, b: int) -> int {
    if a <= b {
        a
    } else {
        b
    }
}

/// The perfect-path minimum over the first `k` routes of a tier, seeded
/// with the tier's first route.
pub open spec fn tier_min_ppf(m: Seq<Seq<Tile>>, w: int, h: int, tier: Seq<Route>, k: int) -> int
    decreases k,
{
    if k <= 1 {
        spec_prefect_path_fitness(m, w, h, tier[0].solution@)
    } else {
        int_min(
            tier_min_ppf(m, w, h, tier, k - 1),
            spec_prefect_path_fitness(m, w, h, tier[k - 1].solution@),
        )
    }
}

/// Folds the any-path minimum and the route count over one tier.
pub open spec fn fold_tier_any(
    m: Seq<Seq<Tile>>,
    w: int,
    h: int,
    tier: Seq<Route>,
    k: int,
    acc_min: int,
    acc_cnt: int,
) -> (int, int)
    decreases k,
{
    if k <= 0 {
        (acc_min, acc_cnt)
    } else {
        let prev = fold_tier_any(m, w, h, tier, k - 1, acc_min, acc_cnt);
        (int_min(prev.0, spec_any_path_fitness(m, w, h, tier[k - 1].solution@)), prev.1 + 1)
    }
}

/// Folds the any-path minimum and the route count over the first `t` tiers.
pub open spec fn fold_tiers_any(
    m: Seq<Seq<Tile>>,
    w: int,
    h: int,
    routes: Seq<Vec<Route>>,
    t: int,
    acc_min: int,
    acc_cnt: int,
) -> (int, int)
    decreases t,
{
    if t <= 0 {
        (acc_min, acc_cnt)
    } else {
        let prev = fold_tiers_any(m, w, h, routes, t - 1, acc_min, acc_cnt);
        fold_tier_any(m, w, h, routes[t - 1]@, routes[t - 1]@.len() as int, prev.0, prev.1)
    }
}


/// Folding a tier adds exactly its processed length to the count and never
/// raises the minimum.
pub proof fn lemma_fold_tier_count(
    m: Seq<Seq<Tile>>,
    w: int,
    h: int,
    tier: Seq<Route>,
    k: int,
    acc_min: int,
    acc_cnt: int,
)
    requires
        k >= 0,
    ensures
        fold_tier_any(m, w, h, tier, k, acc_min, acc_cnt).1 == acc_cnt + k,
        fold_tier_any(m, w, h, tier, k, acc_min, acc_cnt).0 <= acc_min,
    decreases k,
{
    if k > 0 {
        lemma_fold_tier_count(m, w, h, tier, k - 1, acc_min, acc_cnt);
    }
}

/// Folding tiers of bounded length keeps the count bounded and never
/// raises the minimum.
pub proof fn lemma_fold_tiers_count(
    m: Seq<Seq<Tile>>,
    w: int,
    h: int,
    routes: Seq<Vec<Route>>,
    t: int,
    acc_min: int,
    acc_cnt: int,
)
    requires
        0 <= t <= routes.len(),
        forall|i: int| 0 <= i < routes.len() ==> (#[trigger] routes[i])@.len() <= 10000,
    ensures
        acc_cnt <= fold_tiers_any(m, w, h, routes, t, acc_min, acc_cnt).1 <= acc_cnt + t * 10000,
        fold_tiers_any(m, w, h, routes, t, acc_min, acc_cnt).0 <= acc_min,
    decreases t,
{
    if t > 0 {
        lemma_fold_tiers_count(m, w, h, routes, t - 1, acc_min, acc_cnt);
        let prev = fold_tiers_any(m, w, h, routes, t - 1, acc_min, acc_cnt);
        lemma_fold_tier_count(m, w, h, routes[t - 1]@, routes[t - 1]@.len() as int, prev.0, prev.1);
    }
}

/// Every route of the analysis is nonempty, fits the scoring bounds, and
/// there is at least one optimal route to score.
pub open spec fn scoreable(a: Analysis, routes: Seq<Vec<Route>>) -> bool {
    &&& routes.len() == 3
    &&& 1 <= routes[0]@.len() <= 10000
    &&& routes[1]@.len() <= 10000
    &&& routes[2]@.len() <= 10000
    &&& forall|t: int, j: int|
        0 <= t < routes.len() && 0 <= j < routes[t]@.len() ==> 1 <= (
        #[trigger] routes[t]@[j]).solution@.len() <= 10000 && route_coords_bounded(
            routes[t]@[j].solution@,
        )
}

impl Analysis {
    /// Scores the analysed room: under the perfect-path mode, the weakest
    /// optimal route scaled by how the near-optimal tiers spread; under the
    /// any-path mode, the weakest route overall divided by the number of
    /// solutions, rounded up so a solvable room always scores at least one.
    #[verifier::loop_isolation(false)]
    #[verifier::rlimit(100)]
    pub fn compute_fitness(&self, tile_map: &TileMap, board_description: &BoardDescription) -> (r:
        u64)
        requires
            tile_map.wf(),
            scoreable(*self, self.routes@),
        ensures
            ({
                let m = tile_map@;
                let w = tile_map.spec_width();
                let h = tile_map.spec_height();
                if board_description.game_mode is FindPerfectPath {
                    let good = tier_min_ppf(m, w, h, self.routes@[0]@, self.routes@[0]@.len() as int);
                    let spread = (self.routes@[1]@.len() + self.routes@[2]@.len()) * 1000 / (1
                        + self.routes@[0]@.len());
                    r == good * spread
                } else {
                    let seed = spec_any_path_fitness(m, w, h, self.routes@[0]@[0].solution@);
                    let folded = fold_tiers_any(m, w, h, self.routes@, 3, seed, 0);
                    r == (folded.0 * 1000 + folded.1 - 1) / folded.1
                }
            }),
            board_description.game_mode is FindExit ==> r >= 1,
    {
        let ghost m = tile_map@;
        let ghost w = tile_map.spec_width();
        let ghost h = tile_map.spec_height();
        if matches!(board_description.game_mode, GameMode::FindPerfectPath) {
            let tier0 = &self.routes[0];
            let mut good: u64 = tier0[0].prefect_path_fitness(tile_map);
            let mut j: usize = 1;
            while j < tier0.len()
                invariant
                    1 <= j <= tier0@.len(),
                    tier0@ == self.routes@[0]@,
                    good == tier_min_ppf(m, w, h, tier0@, j as int),
                    good <= 41000000000,
                decreases tier0@.len() - j,
            {
                let f = tier0[j].prefect_path_fitness(tile_map);
                if f < good {
                    good = f;
                }
                j = j + 1;
            }
            let spread: u64 = (((self.routes[1].len() + self.routes[2].len()) as u64) * 1000)
                / ((1 + self.routes[0].len()) as u64);
            proof {
                assert(spread as int <= 20000000) by (nonlinear_arith)
                    requires
                        spread as int == (self.routes@[1]@.len() + self.routes@[2]@.len()) * 1000
                            / (1 + self.routes@[0]@.len()),
                        self.routes@[1]@.len() <= 10000,
                        self.routes@[2]@.len() <= 10000,
                        self.routes@[0]@.len() >= 0,
                ;
                assert((good as int) * (spread as int) <= 820000000000000000) by (nonlinear_arith)
                    requires
                        0 <= good as int <= 41000000000,
                        0 <= spread as int <= 20000000,
                ;
            }
            good * spread
        } else {
            let mut min_fitness: u64 = self.routes[0][0].any_path_fitness(tile_map);
            let mut solution_count: u64 = 0;
            let ghost seed = min_fitness as int;
            let mut t: usize = 0;
            while t < 3
                invariant
                    t <= 3,
                    self.routes@.len() == 3,
                    scoreable(*self, self.routes@),
                    m == tile_map@,
                    w == tile_map.spec_width(),
                    h == tile_map.spec_height(),
                    tile_map.wf(),
                    (min_fitness as int, solution_count as int) == fold_tiers_any(
                        m,
                        w,
                        h,
                        self.routes@,
                        t as int,
                        seed,
                        0,
                    ),
                    1 <= min_fitness <= 3000000,
                    solution_count <= 30001,
                decreases 3 - t,
            {
                let tier = &self.routes[t];
                let mut j: usize = 0;
                while j < tier.len()
                    invariant
                        j <= tier@.len(),
                        tier@ == self.routes@[t as int]@,
                        t < 3,
                        self.routes@.len() == 3,
                        scoreable(*self, self.routes@),
                        m == tile_map@,
                        w == tile_map.spec_width(),
                        h == tile_map.spec_height(),
                        tile_map.wf(),
                        (min_fitness as int, solution_count as int) == fold_tier_any(
                            m,
                            w,
                            h,
                            tier@,
                            j as int,
                            fold_tiers_any(m, w, h, self.routes@, t as int, seed, 0).0,
                            fold_tiers_any(m, w, h, self.routes@, t as int, seed, 0).1,
                        ),
                        1 <= min_fitness <= 3000000,
                        solution_count <= 30001,
                    decreases tier@.len() - j,
                {
                    proof {
                        lemma_fold_tiers_count(m, w, h, self.routes@, t as int, seed, 0);
                        lemma_fold_tier_count(
                            m,
                            w,
                            h,
                            tier@,
                            j as int,
                            fold_tiers_any(m, w, h, self.routes@, t as int, seed, 0).0,
                            fold_tiers_any(m, w, h, self.routes@, t as int, seed, 0).1,
                        );
                    }
                    solution_count = solution_count + 1;
                    let f = tier[j].any_path_fitness(tile_map);
                    if f < min_fitness {
                        min_fitness = f;
                    }
                    j = j + 1;
                }
                proof {
                    lemma_fold_tiers_count(m, w, h, self.routes@, t as int, seed, 0);
                    lemma_fold_tier_count(
                        m,
                        w,
                        h,
                        tier@,
                        tier@.len() as int,
                        fold_tiers_any(m, w, h, self.routes@, t as int, seed, 0).0,
                        fold_tiers_any(m, w, h, self.routes@, t as int, seed, 0).1,
                    );
                }
                t = t + 1;
            }
            proof {
                let f0 = fold_tiers_any(m, w, h, self.routes@, 0, seed, 0);
                let f1 = fold_tiers_any(m, w, h, self.routes@, 1, seed, 0);
                let f2 = fold_tiers_any(m, w, h, self.routes@, 2, seed, 0);
                let f3 = fold_tiers_any(m, w, h, self.routes@, 3, seed, 0);
                assert(f0 == (seed, 0int));
                lemma_fold_tier_count(
                    m,
                    w,
                    h,
                    self.routes@[0]@,
                    self.routes@[0]@.len() as int,
                    f0.0,
                    f0.1,
                );
                assert(f1.1 == self.routes@[0]@.len());
                lemma_fold_tier_count(
                    m,
                    w,
                    h,
                    self.routes@[1]@,
                    self.routes@[1]@.len() as int,
                    f1.0,
                    f1.1,
                );
                assert(f2.1 == f1.1 + self.routes@[1]@.len());
                lemma_fold_tier_count(
                    m,
                    w,
                    h,
                    self.routes@[2]@,
                    self.routes@[2]@.len() as int,
                    f2.0,
                    f2.1,
                );
                assert(f3.1 == f2.1 + self.routes@[2]@.len());
                assert(solution_count >= 1);
            }
            let r = (min_fitness * 1000 + solution_count - 1) / solution_count;
            proof {
                assert(r >= 1) by (nonlinear_arith)
                    requires
                        r == ((min_fitness as int) * 1000 + solution_count as int - 1)
                            / (solution_count as int),
                        min_fitness >= 1,
                        1 <= solution_count <= 30001,
                ;
            }
            r
        }
    }
}

impl Analysis {
    /// Writes the analysed tiers and their routes to standard output, one
    /// arrow per move.
    pub fn print(&self) {
        crate::io::emit_text("analisis:");
        crate::io::emit_newline();
        let mut tier: usize = 0;
        while tier < self.routes.len()
            invariant
                tier <= self.routes@.len(),
            decreases self.routes@.len() - tier,
        {
            crate::io::emit_text("tier ");
            crate::io::emit_number(tier);
            crate::io::emit_newline();
            let routes = &self.routes[tier];
            let mut j: usize = 0;
            while j < routes.len()
                invariant
                    j <= routes@.len(),
                decreases routes@.len() - j,
            {
                crate::io::emit_text(":");
                let route = &routes[j];
                let mut k: usize = 0;
                while k < route.solution.len()
                    invariant
                        k <= route.solution@.len(),
                    decreases route.solution@.len() - k,
                {
                    crate::io::emit_text(" ");
                    crate::io::emit_text(route.solution[k].0.icon());
                    k = k + 1;
                }
                crate::io::emit_newline();
                j = j + 1;
            }
            tier = tier + 1;
        }
    }
}

} // verus!

use vstd::prelude::*;

use crate::board::{gview_at, gview_set, unit_vec, Board, TileMapWrap};
use crate::direction::Direction;
use crate::matrix::TileMap;
use crate::pos::Pos;
use crate::solver::{vset, Analysis};
use crate::tile::{tile_eq, Tile};
use crate::visitations::{flat_set, lemma_flat_set_bound, lemma_flat_set_insert, Visitations};

verus! {

/// Whether a tile occurs in a list of tiles, compared by value.
pub open spec fn tile_in(l: Seq<Tile>, t: Tile) -> bool {
    exists|i: int| 0 <= i < l.len() && tile_eq(#[trigger] l[i], t)
}

/// Linear search matching `tile_in`.
pub fn tile_list_contains(l: &Vec<Tile>, t: &Tile) -> (r: bool)
    ensures
        r == tile_in(l@, *t),
{
    let mut i: usize = 0;
    while i < l.len()
        invariant
            i <= l@.len(),
            forall|j: int| 0 <= j < i ==> !tile_eq(#[trigger] l@[j], *t),
        decreases l@.len() - i,
    {
        if l[i] == *t {
            return true;
        }
        i = i + 1;
    }
    false
}

/// Two cells that share an edge.
pub open spec fn adjacent(a: (int, int), b: (int, int)) -> bool {
    unit_vec(b.0 - a.0, b.1 - a.1)
}

/// A walk over in-bounds cells whose tiles all come from the allowed list,
/// moving one edge at a time.
pub open spec fn flood_path_ok(
    m: Seq<Seq<Tile>>,
    w: int,
    h: int,
    trav: Seq<Tile>,
    path: Seq<(int, int)>,
) -> bool {
    &&& path.len() >= 1
    &&& forall|k: int|
        0 <= k < path.len() ==> 0 <= (#[trigger] path[k]).0 < w && 0 <= path[k].1 < h && tile_in(
            trav,
            m[path[k].1][path[k].0],
        )
    &&& forall|k: int| 0 <= k < path.len() - 1 ==> adjacent(path[k], #[trigger] path[k + 1])
}

/// Whether one of the listed start positions sits on the given cell.
pub open spec fn starts_contain(starts: Seq<Pos>, c: (int, int)) -> bool {
    exists|i: int|
        0 <= i < starts.len() && ((#[trigger] starts[i]).x as int, starts[i].y as int) == c
}

/// The cell can be walked to from one of the start positions over allowed
/// tiles.
pub open spec fn flood_reachable(
    m: Seq<Seq<Tile>>,
    w: int,
    h: int,
    starts: Seq<Pos>,
    trav: Seq<Tile>,
    c: (int, int),
) -> bool {
    exists|path: Seq<(int, int)>|
        flood_path_ok(m, w, h, trav, path) && starts_contain(starts, #[trigger] path[0])
            && path.last() == c
}

/// A reachable cell's allowed in-bounds neighbour is reachable too.
proof fn lemma_reachable_step(
    m: Seq<Seq<Tile>>,
    w: int,
    h: int,
    starts: Seq<Pos>,
    trav: Seq<Tile>,
    c: (int, int),
    n: (int, int),
)
    requires
        flood_reachable(m, w, h, starts, trav, c),
        adjacent(c, n),
        0 <= n.0 < w,
        0 <= n.1 < h,
        tile_in(trav, m[n.1][n.0]),
    ensures
        flood_reachable(m, w, h, starts, trav, n),
{
    let path = choose|path: Seq<(int, int)>|
        flood_path_ok(m, w, h, trav, path) && starts_contain(starts, #[trigger] path[0])
            && path.last() == c;
    let ext = path.push(n);
    assert(ext[0] == path[0]);
    assert(ext.last() == n);
    assert forall|k: int| 0 <= k < ext.len() - 1 implies adjacent(ext[k], #[trigger] ext[k + 1]) by {
        if k < path.len() - 1 {
            assert(ext[k] == path[k]);
            assert(ext[k + 1] == path[k + 1]);
        } else {
            assert(ext[k] == path.last());
            assert(ext[k + 1] == n);
        }
    }
    assert(flood_path_ok(m, w, h, trav, ext));
}

/// Whether some queued position sits on the given cell.
pub open spec fn pos_in_queue(q: Seq<Pos>, c: (int, int)) -> bool {
    exists|k: int| 0 <= k < q.len() && ((#[trigger] q[k]).x as int, q[k].y as int) == c
}

proof fn lemma_queue_drop(q: Seq<Pos>, c: (int, int))
    requires
        pos_in_queue(q, c),
        q.len() >= 1,
        (q[0].x as int, q[0].y as int) != c,
    ensures
        pos_in_queue(q.subrange(1, q.len() as int), c),
{
    let k = choose|k: int| 0 <= k < q.len() && ((#[trigger] q[k]).x as int, q[k].y as int) == c;
    assert(q.subrange(1, q.len() as int)[k - 1] == q[k]);
}

proof fn lemma_queue_push(q: Seq<Pos>, p: Pos)
    ensures
        forall|c: (int, int)| pos_in_queue(q, c) ==> pos_in_queue(#[trigger] q.push(p), c),
        pos_in_queue(q.push(p), (p.x as int, p.y as int)),
{
    assert(q.push(p)[q.len() as int] == p);
    assert forall|c: (int, int)| pos_in_queue(q, c) implies pos_in_queue(q.push(p), c) by {
        let k = choose|k: int|
            0 <= k < q.len() && ((#[trigger] q[k]).x as int, q[k].y as int) == c;
        assert(q.push(p)[k] == q[k]);
    }
}

/// Marks every cell that can be walked to from the starting positions over
/// tiles of the allowed list, moving one edge at a time.
///
/// The returned set holds exactly such cells: each marked cell is in
/// bounds, allowed, and walkable from a start, and the marked region is
/// closed under stepping to allowed in-bounds neighbours.
#[verifier::loop_isolation(false)]
#[verifier::rlimit(100)]
pub fn flood(starting_positions: Vec<Pos>, board: &TileMap, traversable_tiles: Vec<Tile>) -> (r:
    Visitations)
    requires
        board.wf(),
    ensures
        r.wf(),
        r.width == board.spec_width(),
        r.height == board.spec_height(),
        forall|c: (int, int)|
            #[trigger] vset(r).contains(c) ==> 0 <= c.0 < board.spec_width() && 0 <= c.1
                < board.spec_height() && tile_in(traversable_tiles@, board@[c.1][c.0])
                && flood_reachable(
                board@,
                board.spec_width(),
                board.spec_height(),
                starting_positions@,
                traversable_tiles@,
                c,
            ),
        forall|i: int|
            0 <= i < starting_positions@.len() && board.spec_in_bounds(
                #[trigger] starting_positions@[i],
            ) && tile_in(
                traversable_tiles@,
                board@[starting_positions@[i].y as int][starting_positions@[i].x as int],
            ) ==> vset(r).contains(
                (starting_positions@[i].x as int, starting_positions@[i].y as int),
            ),
        forall|c: (int, int), n: (int, int)|
            #[trigger] vset(r).contains(c) && #[trigger] adjacent(c, n) && 0 <= n.0
                < board.spec_width() && 0 <= n.1 < board.spec_height() && tile_in(
                traversable_tiles@,
                board@[n.1][n.0],
            ) ==> vset(r).contains(n),
{
    let ghost w = board.spec_width();
    let ghost h = board.spec_height();
    let ghost m = board@;
    let ghost trav = traversable_tiles@;
    let ghost starts = starting_positions@;

    let mut reachability = Visitations::new(board.get_width(), board.get_height());
    proof {
        crate::solver::lemma_vset_empty(reachability);
        assert(vset(reachability) =~= Set::<(int, int)>::empty());
        lemma_flat_set_bound(reachability);
    }
    let mut flood_edge: std::collections::VecDeque<Pos> = std::collections::VecDeque::new();
    let mut si: usize = 0;
    while si < starting_positions.len()
        invariant
            si <= starts.len(),
            flood_edge@ == starts.take(si as int),
        decreases starts.len() - si,
    {
        let p = starting_positions[si];
        flood_edge.push_back(p);
        proof {
            assert(starts.take(si + 1) =~= starts.take(si as int).push(starts[si as int]));
        }
        si = si + 1;
    }
    proof {
        assert(starts.take(starts.len() as int) =~= starts);
        assert forall|k: int|
            0 <= k < flood_edge@.len() implies ({
            let c = ((#[trigger] flood_edge@[k]).x as int, flood_edge@[k].y as int);
            0 <= c.0 < w && 0 <= c.1 < h && tile_in(trav, m[c.1][c.0]) ==> flood_reachable(
                m,
                w,
                h,
                starts,
                trav,
                c,
            )
        }) by {
            let p = flood_edge@[k];
            let c = (p.x as int, p.y as int);
            if 0 <= c.0 < w && 0 <= c.1 < h && tile_in(trav, m[c.1][c.0]) {
                let path = seq![c];
                assert(path[0] == c);
                assert(path.last() == c);
                assert(flood_path_ok(m, w, h, trav, path));
                assert(starts[k] == p);
                assert(starts_contain(starts, c));
                assert(flood_reachable(m, w, h, starts, trav, c));
            }
        }
    }

    while flood_edge.len() > 0
        invariant
            reachability.wf(),
            reachability.width as int == w,
            reachability.height as int == h,
            flat_set(reachability).finite(),
            flat_set(reachability).len() <= w * h,
            forall|k: int|
                0 <= k < flood_edge@.len() ==> ({
                    let c = (
                        (#[trigger] flood_edge@[k]).x as int,
                        flood_edge@[k].y as int,
                    );
                    0 <= c.0 < w && 0 <= c.1 < h && tile_in(trav, m[c.1][c.0])
                        ==> flood_reachable(m, w, h, starts, trav, c)
                }),
            forall|c: (int, int)|
                #[trigger] vset(reachability).contains(c) ==> 0 <= c.0 < w && 0 <= c.1 < h
                    && tile_in(trav, m[c.1][c.0]) && flood_reachable(m, w, h, starts, trav, c),
            forall|c: (int, int), n: (int, int)|
                #[trigger] vset(reachability).contains(c) && #[trigger] adjacent(c, n) && 0
                    <= n.0 < w && 0 <= n.1 < h && tile_in(trav, m[n.1][n.0]) ==> vset(
                    reachability,
                ).contains(n) || pos_in_queue(flood_edge@, n),
            forall|i: int|
                0 <= i < starts.len() && 0 <= (#[trigger] starts[i]).x < w && 0 <= starts[i].y
                    < h && tile_in(trav, m[starts[i].y as int][starts[i].x as int]) ==> vset(
                    reachability,
                ).contains((starts[i].x as int, starts[i].y as int)) || pos_in_queue(
                    flood_edge@,
                    (starts[i].x as int, starts[i].y as int),
                ),
        decreases flood_edge@.len() + 5 * (w * h - flat_set(reachability).len()),
    {
        let ghost q_start = flood_edge@;
        let next_check = flood_edge.pop_front().unwrap();
        let ghost qc = (next_check.x as int, next_check.y as int);
        proof {
            assert(q_start.subrange(1, q_start.len() as int) =~= flood_edge@);
            assert forall|c: (int, int)| pos_in_queue(q_start, c) && c != qc implies pos_in_queue(
                flood_edge@,
                c,
            ) by {
                lemma_queue_drop(q_start, c);
            }
        }

        if !board.in_bounds(&next_check) {
            continue ;
        }

        let already = reachability.contains(&next_check);
        let tile_here = board.at(&next_check);
        let passable = tile_list_contains(&traversable_tiles, &tile_here);

        if !already && passable {
            let ghost pre = reachability;
            reachability.insert(&next_check);
            proof {
                crate::solver::lemma_vset_insert(pre, reachability, next_check);
                lemma_flat_set_insert(pre, reachability, next_check);
                pre.lemma_index_in_range(next_check);
                assert(!flat_set(pre).contains(pre.spec_index_of(next_check)));
                lemma_flat_set_bound(reachability);
                assert(flat_set(reachability).len() == flat_set(pre).len() + 1);
            }

            let north = next_check.plus(Direction::North.vector());
            let south = next_check.plus(Direction::South.vector());
            let east = next_check.plus(Direction::East.vector());
            let west = next_check.plus(Direction::West.vector());
            let ghost q0 = flood_edge@;
            flood_edge.push_back(north);
            flood_edge.push_back(south);
            flood_edge.push_back(east);
            flood_edge.push_back(west);
            proof {
                lemma_queue_push(q0, north);
                lemma_queue_push(q0.push(north), south);
                lemma_queue_push(q0.push(north).push(south), east);
                lemma_queue_push(q0.push(north).push(south).push(east), west);
                assert forall|c: (int, int), n: (int, int)|
                    #[trigger] vset(reachability).contains(c) && #[trigger] adjacent(c, n) && 0
                        <= n.0 < w && 0 <= n.1 < h && tile_in(trav, m[n.1][n.0]) implies vset(
                    reachability,
                ).contains(n) || pos_in_queue(flood_edge@, n) by {
                    if c == qc {
                        assert(n == (qc.0, qc.1 - 1) || n == (qc.0, qc.1 + 1) || n == (
                        qc.0 + 1,
                        qc.1,
                        ) || n == (qc.0 - 1, qc.1));
                    }
                }
                assert forall|k: int|
                    0 <= k < flood_edge@.len() implies ({
                    let c = (
                        (#[trigger] flood_edge@[k]).x as int,
                        flood_edge@[k].y as int,
                    );
                    0 <= c.0 < w && 0 <= c.1 < h && tile_in(trav, m[c.1][c.0])
                        ==> flood_reachable(m, w, h, starts, trav, c)
                }) by {
                    let c = ((flood_edge@[k]).x as int, flood_edge@[k].y as int);
                    if k < flood_edge@.len() - 4 {
                        assert(flood_edge@[k] == q0[k]);
                    } else {
                        if 0 <= c.0 < w && 0 <= c.1 < h && tile_in(trav, m[c.1][c.0]) {
                            assert(adjacent(qc, c));
                            lemma_reachable_step(m, w, h, starts, trav, qc, c);
                        }
                    }
                }
            }
        }
    }
    proof {
        assert forall|c: (int, int), n: (int, int)|
            #[trigger] vset(reachability).contains(c) && #[trigger] adjacent(c, n) && 0 <= n.0
                < w && 0 <= n.1 < h && tile_in(trav, m[n.1][n.0]) implies vset(
            reachability,
        ).contains(n) by {}
    }
    reachability
}

/// The taxicab distance between two cells.
pub open spec fn spec_manhattan(a: Pos, b: Pos) -> int {
    (if a.x >= b.x {
        a.x - b.x
    } else {
        b.x - a.x
    }) + (if a.y >= b.y {
        a.y - b.y
    } else {
        b.y - a.y
    })
}

/// The priority used to steer the frontier search toward the other seed.
pub fn heuristic_distance(pos1: Pos, pos2: Pos) -> (r: usize)
    requires
        -100000 <= pos1.x - pos2.x <= 100000,
        -100000 <= pos1.y - pos2.y <= 100000,
    ensures
        r == spec_manhattan(pos1, pos2),
{
    let dx: isize = if pos1.x >= pos2.x {
        pos1.x - pos2.x
    } else {
        pos2.x - pos1.x
    };
    let dy: isize = if pos1.y >= pos2.y {
        pos1.y - pos2.y
    } else {
        pos2.y - pos1.y
    };
    (dx + dy) as usize
}

/// The tile a patched grid shows at a cell.
pub open spec fn wrap_cell(m: Seq<Seq<Tile>>, pp: Pos, pt: Tile, c: (int, int)) -> Tile {
    if (pp.x as int, pp.y as int) == c {
        pt
    } else {
        m[c.1][c.0]
    }
}

/// A walk across a patched grid: in-bounds cells, every cell after the
/// first passable in live play, one edge at a time.
pub open spec fn walk_ok(
    m: Seq<Seq<Tile>>,
    w: int,
    h: int,
    pp: Pos,
    pt: Tile,
    path: Seq<(int, int)>,
) -> bool {
    &&& path.len() >= 1
    &&& forall|k: int|
        0 <= k < path.len() ==> 0 <= (#[trigger] path[k]).0 < w && 0 <= path[k].1 < h
    &&& forall|k: int|
        1 <= k < path.len() ==> !wrap_cell(
            m,
            pp,
            pt,
            #[trigger] path[k],
        ).spec_stops_player_during_gameplay(false)
    &&& forall|k: int| 0 <= k < path.len() - 1 ==> adjacent(path[k], #[trigger] path[k + 1])
}

/// The cell can be walked to from the seed across the patched grid.
pub open spec fn wrap_reach(
    m: Seq<Seq<Tile>>,
    w: int,
    h: int,
    pp: Pos,
    pt: Tile,
    seed: Pos,
    c: (int, int),
) -> bool {
    exists|path: Seq<(int, int)>|
        walk_ok(m, w, h, pp, pt, path) && (#[trigger] path[0]) == (seed.x as int, seed.y as int)
            && path.last() == c
}

proof fn lemma_wrap_reach_step(
    m: Seq<Seq<Tile>>,
    w: int,
    h: int,
    pp: Pos,
    pt: Tile,
    seed: Pos,
    c: (int, int),
    n: (int, int),
)
    requires
        wrap_reach(m, w, h, pp, pt, seed, c),
        adjacent(c, n),
        0 <= n.0 < w,
        0 <= n.1 < h,
        !wrap_cell(m, pp, pt, n).spec_stops_player_during_gameplay(false),
    ensures
        wrap_reach(m, w, h, pp, pt, seed, n),
{
    let path = choose|path: Seq<(int, int)>|
        walk_ok(m, w, h, pp, pt, path) && (#[trigger] path[0]) == (seed.x as int, seed.y as int)
            && path.last() == c;
    let ext = path.push(n);
    assert(ext[0] == path[0]);
    assert(ext.last() == n);
    assert forall|k: int| 0 <= k < ext.len() - 1 implies adjacent(ext[k], #[trigger] ext[k + 1]) by {
        if k < path.len() - 1 {
            assert(ext[k] == path[k]);
            assert(ext[k + 1] == path[k + 1]);
        } else {
            assert(ext[k] == path.last());
            assert(ext[k + 1] == n);
        }
    }
    assert(walk_ok(m, w, h, pp, pt, ext));
}

proof fn lemma_wrap_reach_seed(
    m: Seq<Seq<Tile>>,
    w: int,
    h: int,
    pp: Pos,
    pt: Tile,
    seed: Pos,
)
    requires
        0 <= seed.x < w,
        0 <= seed.y < h,
    ensures
        wrap_reach(m, w, h, pp, pt, seed, (seed.x as int, seed.y as int)),
{
    let path = seq![(seed.x as int, seed.y as int)];
    assert(path[0] == (seed.x as int, seed.y as int));
    assert(path.last() == (seed.x as int, seed.y as int));
    assert(walk_ok(m, w, h, pp, pt, path));
}

/// Floods one masked view of the grid in full from its seed: the seed is
/// always held, and from there every in-bounds cell that live play lets
/// the actor cross is followed to exhaustion.
#[verifier::loop_isolation(false)]
#[verifier::rlimit(100)]
fn wrap_flood(seed: Pos, base: &TileMap, pp: Pos, pt: Tile) -> (r: Visitations)
    requires
        base.wf(),
        base.spec_in_bounds(seed),
    ensures
        r.wf(),
        r.width == base.spec_width(),
        r.height == base.spec_height(),
        vset(r).contains((seed.x as int, seed.y as int)),
        forall|c: (int, int)|
            #[trigger] vset(r).contains(c) ==> wrap_reach(
                base@,
                base.spec_width(),
                base.spec_height(),
                pp,
                pt,
                seed,
                c,
            ),
        forall|c: (int, int), n: (int, int)|
            #[trigger] vset(r).contains(c) && #[trigger] adjacent(c, n) && 0 <= n.0
                < base.spec_width() && 0 <= n.1 < base.spec_height() && !wrap_cell(
                base@,
                pp,
                pt,
                n,
            ).spec_stops_player_during_gameplay(false) ==> vset(r).contains(n),
{
    let ghost w = base.spec_width();
    let ghost h = base.spec_height();
    let ghost m = base@;

    let mut found = Visitations::new(base.get_width(), base.get_height());
    proof {
        crate::solver::lemma_vset_empty(found);
        assert(vset(found) =~= Set::<(int, int)>::empty());
        lemma_flat_set_bound(found);
    }
    let ghost pre = found;
    found.insert(&seed);
    proof {
        crate::solver::lemma_vset_insert(pre, found, seed);
        lemma_flat_set_insert(pre, found, seed);
        pre.lemma_index_in_range(seed);
        lemma_flat_set_bound(found);
        lemma_wrap_reach_seed(m, w, h, pp, pt, seed);
    }

    let wrap = TileMapWrap { base, p: pp, tile: pt };
    let mut frontier: std::collections::VecDeque<Pos> = std::collections::VecDeque::new();
    frontier.push_back(seed.plus(Direction::North.vector()));
    frontier.push_back(seed.plus(Direction::South.vector()));
    frontier.push_back(seed.plus(Direction::East.vector()));
    frontier.push_back(seed.plus(Direction::West.vector()));
    proof {
        assert forall|k: int|
            0 <= k < frontier@.len() implies ({
            let c = ((#[trigger] frontier@[k]).x as int, frontier@[k].y as int);
            0 <= c.0 < w && 0 <= c.1 < h && !wrap_cell(
                m,
                pp,
                pt,
                c,
            ).spec_stops_player_during_gameplay(false) ==> wrap_reach(m, w, h, pp, pt, seed, c)
        }) by {
            let c = ((frontier@[k]).x as int, frontier@[k].y as int);
            if 0 <= c.0 < w && 0 <= c.1 < h && !wrap_cell(
                m,
                pp,
                pt,
                c,
            ).spec_stops_player_during_gameplay(false) {
                lemma_wrap_reach_step(
                    m,
                    w,
                    h,
                    pp,
                    pt,
                    seed,
                    (seed.x as int, seed.y as int),
                    c,
                );
            }
        }
        assert forall|c: (int, int), n: (int, int)|
            #[trigger] vset(found).contains(c) && #[trigger] adjacent(c, n) && 0 <= n.0 < w && 0
                <= n.1 < h && !wrap_cell(m, pp, pt, n).spec_stops_player_during_gameplay(
                false,
            ) implies vset(found).contains(n) || pos_in_queue(frontier@, n) by {
            assert(c == (seed.x as int, seed.y as int));
            assert(n == (c.0, c.1 - 1) || n == (c.0, c.1 + 1) || n == (c.0 + 1, c.1) || n == (
            c.0 - 1,
            c.1,
            ));
            if n == (c.0, c.1 - 1) {
                assert((frontier@[0].x as int, frontier@[0].y as int) == n);
            } else if n == (c.0, c.1 + 1) {
                assert((frontier@[1].x as int, frontier@[1].y as int) == n);
            } else if n == (c.0 + 1, c.1) {
                assert((frontier@[2].x as int, frontier@[2].y as int) == n);
            } else {
                assert((frontier@[3].x as int, frontier@[3].y as int) == n);
            }
        }
    }

    while frontier.len() > 0
        invariant
            found.wf(),
            found.width as int == w,
            found.height as int == h,
            flat_set(found).finite(),
            flat_set(found).len() <= w * h,
            vset(found).contains((seed.x as int, seed.y as int)),
            forall|k: int|
                0 <= k < frontier@.len() ==> ({
                    let c = ((#[trigger] frontier@[k]).x as int, frontier@[k].y as int);
                    0 <= c.0 < w && 0 <= c.1 < h && !wrap_cell(
                        m,
                        pp,
                        pt,
                        c,
                    ).spec_stops_player_during_gameplay(false) ==> wrap_reach(
                        m,
                        w,
                        h,
                        pp,
                        pt,
                        seed,
                        c,
                    )
                }),
            forall|c: (int, int)|
                #[trigger] vset(found).contains(c) ==> wrap_reach(m, w, h, pp, pt, seed, c),
            forall|c: (int, int), n: (int, int)|
                #[trigger] vset(found).contains(c) && #[trigger] adjacent(c, n) && 0 <= n.0 < w
                    && 0 <= n.1 < h && !wrap_cell(m, pp, pt, n).spec_stops_player_during_gameplay(
                    false,
                ) ==> vset(found).contains(n) || pos_in_queue(frontier@, n),
        decreases frontier@.len() + 5 * (w * h - flat_set(found).len()),
    {
        let ghost q_start = frontier@;
        let next_check = frontier.pop_front().unwrap();
        let ghost qc = (next_check.x as int, next_check.y as int);
        proof {
            assert(q_start.subrange(1, q_start.len() as int) =~= frontier@);
            assert forall|c: (int, int)| pos_in_queue(q_start, c) && c != qc implies pos_in_queue(
                frontier@,
                c,
            ) by {
                lemma_queue_drop(q_start, c);
            }
        }

        if !base.in_bounds(&next_check) {
            continue ;
        }

        let already = found.contains(&next_check);
        let t = wrap.at(&next_check);
        let passable = !t.stops_player_during_gameplay(false);

        if !already && passable {
            let ghost pref = found;
            found.insert(&next_check);
            proof {
                crate::solver::lemma_vset_insert(pref, found, next_check);
                lemma_flat_set_insert(pref, found, next_check);
                pref.lemma_index_in_range(next_check);
                assert(!flat_set(pref).contains(pref.spec_index_of(next_check)));
                lemma_flat_set_bound(found);
                assert(flat_set(found).len() == flat_set(pref).len() + 1);
            }

            let north = next_check.plus(Direction::North.vector());
            let south = next_check.plus(Direction::South.vector());
            let east = next_check.plus(Direction::East.vector());
            let west = next_check.plus(Direction::West.vector());
            let ghost q0 = frontier@;
            frontier.push_back(north);
            frontier.push_back(south);
            frontier.push_back(east);
            frontier.push_back(west);
            proof {
                lemma_queue_push(q0, north);
                lemma_queue_push(q0.push(north), south);
                lemma_queue_push(q0.push(north).push(south), east);
                lemma_queue_push(q0.push(north).push(south).push(east), west);
                assert forall|c: (int, int), n: (int, int)|
                    #[trigger] vset(found).contains(c) && #[trigger] adjacent(c, n) && 0 <= n.0
                        < w && 0 <= n.1 < h && !wrap_cell(
                        m,
                        pp,
                        pt,
                        n,
                    ).spec_stops_player_during_gameplay(false) implies vset(found).contains(n)
                    || pos_in_queue(frontier@, n) by {
                    if c == qc {
                        assert(n == (qc.0, qc.1 - 1) || n == (qc.0, qc.1 + 1) || n == (
                        qc.0 + 1,
                        qc.1,
                        ) || n == (qc.0 - 1, qc.1));
                    }
                }
                assert forall|k: int|
                    0 <= k < frontier@.len() implies ({
                    let c = ((#[trigger] frontier@[k]).x as int, frontier@[k].y as int);
                    0 <= c.0 < w && 0 <= c.1 < h && !wrap_cell(
                        m,
                        pp,
                        pt,
                        c,
                    ).spec_stops_player_during_gameplay(false) ==> wrap_reach(
                        m,
                        w,
                        h,
                        pp,
                        pt,
                        seed,
                        c,
                    )
                }) by {
                    let c = ((frontier@[k]).x as int, frontier@[k].y as int);
                    if k < frontier@.len() - 4 {
                        assert(frontier@[k] == q0[k]);
                    } else {
                        if 0 <= c.0 < w && 0 <= c.1 < h && !wrap_cell(
                            m,
                            pp,
                            pt,
                            c,
                        ).spec_stops_player_during_gameplay(false) {
                            assert(adjacent(qc, c));
                            lemma_wrap_reach_step(m, w, h, pp, pt, seed, qc, c);
                        }
                    }
                }
            }
        }
    }
    found
}

/// A region that holds the seed and is closed under passable steps holds
/// every cell walkable from the seed.
proof fn lemma_walk_in_closed_wrap_set(
    s: Set<(int, int)>,
    m: Seq<Seq<Tile>>,
    w: int,
    h: int,
    pp: Pos,
    pt: Tile,
    seed: Pos,
    path: Seq<(int, int)>,
)
    requires
        walk_ok(m, w, h, pp, pt, path),
        path[0] == (seed.x as int, seed.y as int),
        s.contains((seed.x as int, seed.y as int)),
        forall|c: (int, int), n: (int, int)|
            #[trigger] s.contains(c) && #[trigger] adjacent(c, n) && 0 <= n.0 < w && 0 <= n.1 < h
                && !wrap_cell(m, pp, pt, n).spec_stops_player_during_gameplay(false)
                ==> s.contains(n),
    ensures
        s.contains(path.last()),
    decreases path.len(),
{
    if path.len() == 1 {
    } else {
        let pre = path.take(path.len() - 1);
        assert(pre[0] == path[0]);
        assert(walk_ok(m, w, h, pp, pt, pre)) by {
            assert forall|k: int|
                0 <= k < pre.len() implies 0 <= (#[trigger] pre[k]).0 < w && 0 <= pre[k].1
                < h by {
                assert(pre[k] == path[k]);
            }
            assert forall|k: int|
                1 <= k < pre.len() implies !wrap_cell(
                m,
                pp,
                pt,
                #[trigger] pre[k],
            ).spec_stops_player_during_gameplay(false) by {
                assert(pre[k] == path[k]);
            }
            assert forall|k: int| 0 <= k < pre.len() - 1 implies adjacent(
                pre[k],
                #[trigger] pre[k + 1],
            ) by {
                assert(pre[k] == path[k]);
                assert(pre[k + 1] == path[k + 1]);
            }
        }
        lemma_walk_in_closed_wrap_set(s, m, w, h, pp, pt, seed, pre);
        assert(pre.last() == path[path.len() - 2]);
        assert(path[path.len() - 1] == path.last());
        assert(adjacent(path[path.len() - 2], path[path.len() - 2 + 1]));
        assert(s.contains(path.last()));
    }
}

/// Decides whether the two seeds are joined: each masked view is flooded
/// in full from its seed, and the answer says exactly whether some cell is
/// walkable from both.
#[verifier::loop_isolation(false)]
#[verifier::rlimit(100)]
pub fn connected(seed1: Pos, seed2: Pos, board1: &TileMapWrap, board2: &TileMapWrap) -> (r: bool)
    requires
        board1.base.wf(),
        board2.base.wf(),
        board1.base@ == board2.base@,
        board1.base.spec_width() == board2.base.spec_width(),
        board1.base.spec_height() == board2.base.spec_height(),
        board1.base.spec_in_bounds(seed1),
        board1.base.spec_in_bounds(seed2),
    ensures
        r == exists|c: (int, int)|
            #[trigger] wrap_reach(
                board1.base@,
                board1.base.spec_width(),
                board1.base.spec_height(),
                board1.p,
                board1.tile,
                seed1,
                c,
            ) && wrap_reach(
                board2.base@,
                board2.base.spec_width(),
                board2.base.spec_height(),
                board2.p,
                board2.tile,
                seed2,
                c,
            ),
{
    let ghost w = board1.base.spec_width();
    let ghost h = board1.base.spec_height();
    let ghost m = board1.base@;

    let found1 = wrap_flood(seed1, board1.base, board1.p, board1.tile.clone());
    let found2 = wrap_flood(seed2, board2.base, board2.p, board2.tile.clone());

    let width = board1.base.get_width();
    let height = board1.base.get_height();
    let mut x: isize = 0;
    while x < width
        invariant
            0 <= x <= width,
            forall|cx: int, cy: int|
                0 <= cx < x && 0 <= cy < h ==> !(#[trigger] vset(found1).contains((cx, cy))
                    && vset(found2).contains((cx, cy))),
        decreases width - x,
    {
        let mut y: isize = 0;
        while y < height
            invariant
                0 <= y <= height,
                0 <= x < width,
                forall|cx: int, cy: int|
                    0 <= cx < x && 0 <= cy < h ==> !(#[trigger] vset(found1).contains((cx, cy))
                        && vset(found2).contains((cx, cy))),
                forall|cy: int|
                    0 <= cy < y ==> !(#[trigger] vset(found1).contains((x as int, cy))
                        && vset(found2).contains((x as int, cy))),
            decreases height - y,
        {
            let p = Pos::new(x, y);
            if found1.contains(&p) && found2.contains(&p) {
                proof {
                    let c = (x as int, y as int);
                    assert(vset(found1).contains(c));
                    assert(vset(found2).contains(c));
                    assert(wrap_reach(m, w, h, board1.p, board1.tile, seed1, c));
                    assert(wrap_reach(m, w, h, board2.p, board2.tile, seed2, c));
                }
                return true;
            }
            y = y + 1;
        }
        x = x + 1;
    }
    proof {
        assert forall|c: (int, int)|
            !(#[trigger] wrap_reach(m, w, h, board1.p, board1.tile, seed1, c) && wrap_reach(
                m,
                w,
                h,
                board2.p,
                board2.tile,
                seed2,
                c,
            )) by {
            if wrap_reach(m, w, h, board1.p, board1.tile, seed1, c) && wrap_reach(
                m,
                w,
                h,
                board2.p,
                board2.tile,
                seed2,
                c,
            ) {
                let path1 = choose|path: Seq<(int, int)>|
                    walk_ok(m, w, h, board1.p, board1.tile, path) && (#[trigger] path[0]) == (
                        seed1.x as int,
                        seed1.y as int,
                    ) && path.last() == c;
                lemma_walk_in_closed_wrap_set(
                    vset(found1),
                    m,
                    w,
                    h,
                    board1.p,
                    board1.tile,
                    seed1,
                    path1,
                );
                let path2 = choose|path: Seq<(int, int)>|
                    walk_ok(m, w, h, board2.p, board2.tile, path) && (#[trigger] path[0]) == (
                        seed2.x as int,
                        seed2.y as int,
                    ) && path.last() == c;
                lemma_walk_in_closed_wrap_set(
                    vset(found2),
                    m,
                    w,
                    h,
                    board2.p,
                    board2.tile,
                    seed2,
                    path2,
                );
                assert(vset(found1).contains(c) && vset(found2).contains(c));
                assert(0 <= c.0 < w && 0 <= c.1 < h);
                assert(false);
            }
        }
    }
    false
}

/// The flat indices of cells the live-play rules let the actor cross:
/// the pool the room-elimination pass can still carve from.
pub open spec fn open_cell_set(m: Seq<Seq<Tile>>, w: int, h: int) -> Set<int> {
    Set::new(
        |i: int|
            0 <= i < w * h && !m[i / w][i % w].spec_stops_player_during_gameplay(false),
    )
}

pub proof fn lemma_open_cell_set_bound(m: Seq<Seq<Tile>>, w: int, h: int)
    requires
        1 <= w,
        1 <= h,
    ensures
        open_cell_set(m, w, h).finite(),
        open_cell_set(m, w, h).len() <= w * h,
{
    let univ = vstd::set_lib::set_int_range(0, w * h);
    vstd::set_lib::lemma_int_range(0, w * h);
    assert(open_cell_set(m, w, h).subset_of(univ));
    vstd::set_lib::lemma_len_subset(open_cell_set(m, w, h), univ);
}

/// Turning an open cell into a wall removes exactly its flat index from the
/// open-cell pool.
pub proof fn lemma_open_cell_set_wall(m: Seq<Seq<Tile>>, w: int, h: int, x: int, y: int)
    requires
        1 <= w <= 10000,
        1 <= h <= 10000,
        0 <= x < w,
        0 <= y < h,
        m.len() == h,
        forall|yy: int| 0 <= yy < h ==> (#[trigger] m[yy]).len() == w,
    ensures
        open_cell_set(gview_set(m, x, y, Tile::Wall), w, h) == open_cell_set(m, w, h).remove(
            y * w + x,
        ),
{
    let m2 = gview_set(m, x, y, Tile::Wall);
    let ip = y * w + x;
    crate::matrix::lemma_grid_index(w, h, x, y);
    assert forall|i: int|
        open_cell_set(m2, w, h).contains(i) == open_cell_set(m, w, h).remove(ip).contains(
            i,
        ) by {
        if 0 <= i < w * h {
            let qx = i % w;
            let qy = i / w;
            vstd::arithmetic::div_mod::lemma_fundamental_div_mod(i, w);
            assert(0 <= qx < w) by {
                vstd::arithmetic::div_mod::lemma_mod_bound(i, w);
            }
            assert(qy * w == w * qy) by (nonlinear_arith);
            assert(h * w == w * h) by (nonlinear_arith);
            assert(0 <= qy < h) by {
                if qy < 0 {
                    vstd::arithmetic::mul::lemma_mul_inequality(qy, -1, w);
                }
                if qy >= h {
                    vstd::arithmetic::mul::lemma_mul_inequality(h, qy, w);
                }
            }
            assert(qy * w == w * qy) by (nonlinear_arith);
            if i == ip {
                assert(qx == x && qy == y) by {
                    crate::matrix::lemma_grid_index_injective(w, qx, qy, x, y);
                }
                assert(m2[qy][qx] == Tile::Wall);
            } else {
                assert(!(qx == x && qy == y));
                assert(m2[qy][qx] == m[qy][qx]);
            }
        }
    }
    assert(open_cell_set(m2, w, h) =~= open_cell_set(m, w, h).remove(ip));
}

/// A pair of adjacent cells the pocket pass must act on: both open in live
/// play, not flanked by an ice pair on either parallel side, and off the
/// entrance corridor. The second cell lies one step along `(dx, dy)`.
pub open spec fn pair_flagged(
    m: Seq<Seq<Tile>>,
    w: int,
    h: int,
    p1: Pos,
    dx: int,
    dy: int,
    corridor: (int, int),
) -> bool {
    let p2x = p1.x + dx;
    let p2y = p1.y + dy;
    let nx = dy;
    let ny = -dx;
    &&& !gview_at(m, w, h, p1.x as int, p1.y as int).spec_stops_player_during_gameplay(false)
    &&& !gview_at(m, w, h, p2x, p2y).spec_stops_player_during_gameplay(false)
    &&& !(gview_at(m, w, h, p1.x + nx, p1.y + ny) is Ice && gview_at(
        m,
        w,
        h,
        p2x + nx,
        p2y + ny,
    ) is Ice)
    &&& !(gview_at(m, w, h, p1.x - nx, p1.y - ny) is Ice && gview_at(
        m,
        w,
        h,
        p2x - nx,
        p2y - ny,
    ) is Ice)
    &&& (p1.x as int, p1.y as int) != corridor
    &&& (p2x, p2y) != corridor
}

/// The pair has an alternative route: some cell is walkable from each of
/// the two, with the other masked off as a wall.
pub open spec fn pair_joined(m: Seq<Seq<Tile>>, w: int, h: int, p1: Pos, p2: Pos) -> bool {
    exists|c: (int, int)|
        #[trigger] wrap_reach(m, w, h, p2, Tile::Wall, p1, c) && wrap_reach(
            m,
            w,
            h,
            p1,
            Tile::Wall,
            p2,
            c,
        )
}

/// The `k`-th of the two probed headings: down, then right.
pub open spec fn probe_delta(k: int) -> (int, int) {
    if k == 0 {
        (0, 1)
    } else {
        (1, 0)
    }
}

/// The pair at `p1` along the `k`-th heading, if the pass must act on it,
/// has an alternative route.
pub open spec fn pair_ok(
    m: Seq<Seq<Tile>>,
    w: int,
    h: int,
    p1: Pos,
    k: int,
    corridor: (int, int),
) -> bool {
    let dx = probe_delta(k).0;
    let dy = probe_delta(k).1;
    pair_flagged(m, w, h, p1, dx, dy, corridor) ==> pair_joined(
        m,
        w,
        h,
        p1,
        Pos { x: (p1.x + dx) as isize, y: (p1.y + dy) as isize },
    )
}

/// Every flagged pair among the first `n` probed positions has an
/// alternative route.
pub open spec fn checked_upto(
    m: Seq<Seq<Tile>>,
    w: int,
    h: int,
    ap: Seq<Pos>,
    n: int,
    corridor: (int, int),
) -> bool {
    forall|j: int, k: int|
        0 <= j < n && 0 <= k < 2 ==> #[trigger] pair_ok(m, w, h, ap[j], k, corridor)
}

/// No pocket remains: every flagged pair of adjacent interior cells has an
/// alternative route.
pub open spec fn no_pockets(m: Seq<Seq<Tile>>, w: int, h: int, corridor: (int, int)) -> bool {
    forall|x: int, y: int, k: int|
        1 <= x < w - 1 && 1 <= y < h - 1 && 0 <= k < 2 ==> #[trigger] pair_ok(
            m,
            w,
            h,
            Pos { x: x as isize, y: y as isize },
            k,
            corridor,
        )
}

/// Breaks pockets: wherever two adjacent open cells have no open flank pair
/// and no alternative route joining them, one of the two (chosen at random)
/// is turned into a wall; the pass repeats until no flagged pair remains.
///
/// The grid only ever changes by open interior cells away from the entry
/// corridor becoming walls, and on return no pocket remains.
#[verifier::loop_isolation(false)]
#[verifier::rlimit(100)]
pub fn remove_rooms(board: &mut TileMap, start: &Pos, start_direction: &Direction)
    requires
        old(board).wf(),
        old(board).spec_in_bounds(*start),
    ensures
        final(board).wf(),
        final(board).spec_width() == old(board).spec_width(),
        final(board).spec_height() == old(board).spec_height(),
        forall|x: int, y: int|
            0 <= x < old(board).spec_width() && 0 <= y < old(board).spec_height() ==> ({
                ||| final(board)@[y][x] == old(board)@[y][x]
                ||| (final(board)@[y][x] is Wall && 1 <= x && 1 <= y && !old(
                    board,
                )@[y][x].spec_stops_player_during_gameplay(false))
            }),
        ({
            let cx = start.x + start_direction.spec_vector().x;
            let cy = start.y + start_direction.spec_vector().y;
            0 <= cx < old(board).spec_width() && 0 <= cy < old(board).spec_height()
                ==> final(board)@[cy as int][cx as int] == old(board)@[cy as int][cx as int]
        }),
        no_pockets(
            final(board)@,
            old(board).spec_width(),
            old(board).spec_height(),
            (
                start.x + start_direction.spec_vector().x,
                start.y + start_direction.spec_vector().y,
            ),
        ),
{
    let ghost w = board.spec_width();
    let ghost h = board.spec_height();
    let ghost m0 = old(board)@;

    let all_pos = board.all_inner_pos();
    let entrance_corridor = start.plus(start_direction.vector());
    let ghost corr = (entrance_corridor.x as int, entrance_corridor.y as int);

    proof {
        lemma_open_cell_set_bound(board@, w, h);
        assert(board@ == m0);
        assert(entrance_corridor.x as int == start.x + start_direction.spec_vector().x);
        assert(entrance_corridor.y as int == start.y + start_direction.spec_vector().y);
    }

    let mut rep = true;
    while rep
        invariant
            board.wf(),
            board.spec_width() == w,
            board.spec_height() == h,
            open_cell_set(board@, w, h).finite(),
            open_cell_set(board@, w, h).len() <= w * h,
            forall|x: int, y: int|
                0 <= x < w && 0 <= y < h ==> ({
                    ||| board@[y][x] == m0[y][x]
                    ||| (board@[y][x] is Wall && 1 <= x && 1 <= y && !m0[y][x].spec_stops_player_during_gameplay(
                        false,
                    ))
                }),
            0 <= entrance_corridor.x < w && 0 <= entrance_corridor.y < h
                ==> board@[entrance_corridor.y as int][entrance_corridor.x as int]
                == m0[entrance_corridor.y as int][entrance_corridor.x as int],
            !rep ==> no_pockets(board@, w, h, corr),
        decreases 2 * open_cell_set(board@, w, h).len() + (if rep {
            1int
        } else {
            0int
        }),
    {
        rep = false;
        let ghost entry_open = open_cell_set(board@, w, h).len();

        let mut i: usize = 0;
        while i < all_pos.len()
            invariant
                i <= all_pos@.len(),
                board.wf(),
                board.spec_width() == w,
                board.spec_height() == h,
                open_cell_set(board@, w, h).finite(),
                open_cell_set(board@, w, h).len() <= w * h,
                open_cell_set(board@, w, h).len() <= entry_open,
                rep ==> open_cell_set(board@, w, h).len() < entry_open,
                forall|x: int, y: int|
                    0 <= x < w && 0 <= y < h ==> ({
                        ||| board@[y][x] == m0[y][x]
                        ||| (board@[y][x] is Wall && 1 <= x && 1 <= y && !m0[y][x].spec_stops_player_during_gameplay(
                            false,
                        ))
                    }),
                0 <= entrance_corridor.x < w && 0 <= entrance_corridor.y < h
                    ==> board@[entrance_corridor.y as int][entrance_corridor.x as int]
                    == m0[entrance_corridor.y as int][entrance_corridor.x as int],
                !rep ==> checked_upto(board@, w, h, all_pos@, i as int, corr),
            decreases all_pos@.len() - i,
        {
            let ghost j0 = i as int;
            let p1 = all_pos[i];
            i = i + 1;
            if board.at(&p1).stops_player_during_gameplay(false) {
                proof {
                    if !rep {
                        assert forall|j: int, k: int|
                            0 <= j < i as int && 0 <= k < 2 implies #[trigger] pair_ok(
                            board@,
                            w,
                            h,
                            all_pos@[j],
                            k,
                            corr,
                        ) by {
                            if j == j0 {
                                assert(gview_at(
                                    board@,
                                    w,
                                    h,
                                    p1.x as int,
                                    p1.y as int,
                                ).spec_stops_player_during_gameplay(false));
                            }
                        }
                    }
                }
                continue ;
            }
            proof {
                assert(!m0[p1.y as int][p1.x as int].spec_stops_player_during_gameplay(false));
            }

            let mut k: usize = 0;
            while k < 2
                invariant
                    k <= 2,
                    board.wf(),
                    board.spec_width() == w,
                    board.spec_height() == h,
                    board.spec_in_bounds(p1),
                    1 <= p1.x < w - 1,
                    1 <= p1.y < h - 1,
                    !m0[p1.y as int][p1.x as int].spec_stops_player_during_gameplay(false),
                    board@[p1.y as int][p1.x as int].spec_stops_player_during_gameplay(false)
                        ==> rep,
                    open_cell_set(board@, w, h).finite(),
                    open_cell_set(board@, w, h).len() <= w * h,
                    open_cell_set(board@, w, h).len() <= entry_open,
                    rep ==> open_cell_set(board@, w, h).len() < entry_open,
                    forall|x: int, y: int|
                        0 <= x < w && 0 <= y < h ==> ({
                            ||| board@[y][x] == m0[y][x]
                            ||| (board@[y][x] is Wall && 1 <= x && 1 <= y
                                && !m0[y][x].spec_stops_player_during_gameplay(false))
                        }),
                    0 <= entrance_corridor.x < w && 0 <= entrance_corridor.y < h
                        ==> board@[entrance_corridor.y as int][entrance_corridor.x as int]
                        == m0[entrance_corridor.y as int][entrance_corridor.x as int],
                    0 <= j0 < all_pos@.len(),
                    all_pos@[j0] == p1,
                    i as int == j0 + 1,
                    !rep ==> checked_upto(board@, w, h, all_pos@, j0, corr),
                    !rep ==> forall|kk: int|
                        0 <= kk < k ==> #[trigger] pair_ok(board@, w, h, p1, kk, corr),
                decreases 2 - k,
            {
                let (dx, dy): (isize, isize) = if k == 0 {
                    (0, 1)
                } else {
                    (1, 0)
                };
                let ghost k0 = k as int;
                k = k + 1;
                proof {
                    assert(probe_delta(k0) == (dx as int, dy as int));
                }

                let p2 = p1.plus(Pos::new(dx, dy));
                if board.at(&p2).stops_player_during_gameplay(false) {
                    proof {
                        assert(!pair_flagged(board@, w, h, p1, dx as int, dy as int, corr));
                    }
                    continue ;
                }

                let direction = Pos::new(dx, dy);
                let normal_direction = direction.rotate_left(1);
                proof {
                    assert(normal_direction == (Pos { x: dy, y: (-dx) as isize }));
                }

                if matches!(board.at(&p1.plus(normal_direction)), Tile::Ice) && matches!(
                    board.at(&p2.plus(normal_direction)),
                    Tile::Ice,
                ) {
                    proof {
                        assert(!pair_flagged(board@, w, h, p1, dx as int, dy as int, corr));
                    }
                    continue ;
                }
                if matches!(board.at(&p1.minus(normal_direction)), Tile::Ice) && matches!(
                    board.at(&p2.minus(normal_direction)),
                    Tile::Ice,
                ) {
                    proof {
                        assert(!pair_flagged(board@, w, h, p1, dx as int, dy as int, corr));
                    }
                    continue ;
                }
                if entrance_corridor.x == p1.x && entrance_corridor.y == p1.y {
                    proof {
                        assert(!pair_flagged(board@, w, h, p1, dx as int, dy as int, corr));
                    }
                    continue ;
                }
                if entrance_corridor.x == p2.x && entrance_corridor.y == p2.y {
                    proof {
                        assert(!pair_flagged(board@, w, h, p1, dx as int, dy as int, corr));
                    }
                    continue ;
                }

                let joined = {
                    let wrap1 = TileMapWrap { base: &*board, p: p2, tile: Tile::Wall };
                    let wrap2 = TileMapWrap { base: &*board, p: p1, tile: Tile::Wall };
                    connected(p1, p2, &wrap1, &wrap2)
                };
                proof {
                    if joined {
                        assert(pair_joined(board@, w, h, p1, p2));
                        assert(pair_ok(board@, w, h, p1, k0, corr));
                    }
                }

                if !joined {
                    let ghost before = board@;
                    let target: Pos = if crate::rng::random_flip() {
                        p1
                    } else {
                        p2
                    };
                    proof {
                        let tx = target.x as int;
                        let ty = target.y as int;
                        lemma_open_cell_set_wall(before, w, h, tx, ty);
                        crate::matrix::lemma_grid_index(w, h, tx, ty);
                        vstd::arithmetic::div_mod::lemma_fundamental_div_mod_converse(
                            ty * w + tx,
                            w,
                            ty,
                            tx,
                        );
                        if !before[ty][tx].spec_stops_player_during_gameplay(false) {
                            assert(open_cell_set(before, w, h).contains(ty * w + tx));
                        } else {
                            assert(target == p1);
                            assert(rep);
                            assert(open_cell_set(gview_set(before, tx, ty, Tile::Wall), w, h)
                                =~= open_cell_set(before, w, h));
                        }
                    }
                    board.set(&target, Tile::Wall);
                    rep = true;
                }
            }
            proof {
                if !rep {
                    assert forall|j: int, kq: int|
                        0 <= j < i as int && 0 <= kq < 2 implies #[trigger] pair_ok(
                        board@,
                        w,
                        h,
                        all_pos@[j],
                        kq,
                        corr,
                    ) by {
                        if j == j0 {
                            assert(pair_ok(board@, w, h, p1, kq, corr));
                        }
                    }
                }
            }
        }
        proof {
            if !rep {
                assert forall|x: int, y: int, kq: int|
                    1 <= x < w - 1 && 1 <= y < h - 1 && 0 <= kq < 2 implies #[trigger] pair_ok(
                    board@,
                    w,
                    h,
                    Pos { x: x as isize, y: y as isize },
                    kq,
                    corr,
                ) by {
                    assert(all_pos@.contains(Pos { x: x as isize, y: y as isize }));
                    let j = choose|j: int|
                        0 <= j < all_pos@.len() && all_pos@[j] == Pos {
                            x: x as isize,
                            y: y as isize,
                        };
                    assert(pair_ok(board@, w, h, all_pos@[j], kq, corr));
                }
            }
        }
    }
}


/// Overwrites one cell, stated pointwise so painted cells chain cheaply.
fn paint(map: &mut TileMap, p: &Pos, val: Tile)
    requires
        old(map).wf(),
        old(map).spec_in_bounds(*p),
    ensures
        final(map).wf(),
        final(map).spec_width() == old(map).spec_width(),
        final(map).spec_height() == old(map).spec_height(),
        final(map)@[p.y as int][p.x as int] == val,
        forall|x: int, y: int|
            0 <= x < old(map).spec_width() && 0 <= y < old(map).spec_height() && !(x == p.x as int
                && y == p.y as int) ==> final(map)@[y][x] == old(map)@[y][x],
{
    map.set(p, val);
}

/// A heading's left turn is its displacement rotated a quarter turn.
proof fn lemma_left_perp(d: Direction)
    ensures
        d.spec_left().spec_vector().x as int == d.spec_vector().y as int,
        d.spec_left().spec_vector().y as int == -(d.spec_vector().x as int),
        d.spec_right().spec_vector().x as int == -(d.spec_vector().y as int),
        d.spec_right().spec_vector().y as int == d.spec_vector().x as int,
{
    match d {
        Direction::North => {
        },
        Direction::South => {
        },
        Direction::East => {
        },
        Direction::West => {
        },
    }
}

/// The given cell lies on a grid of the given dimensions.
pub open spec fn in_b(x: int, y: int, w: int, h: int) -> bool {
    0 <= x < w && 0 <= y < h
}

/// The three cells the entry carving pins: the corridor cell straight in
/// front of its gate and its two flanks.
pub open spec fn in_entry_front(p: Pos, d: Direction, c: (int, int)) -> bool {
    let vx = d.spec_vector().x as int;
    let vy = d.spec_vector().y as int;
    let lx = d.spec_left().spec_vector().x as int;
    let ly = d.spec_left().spec_vector().y as int;
    ||| c == (p.x + vx, p.y + vy)
    ||| c == (p.x + vx + lx, p.y + vy + ly)
    ||| c == (p.x + vx - lx, p.y + vy - ly)
}

/// The six cells the exit carving opens up.
pub open spec fn in_exit_apron(p: Pos, d: Direction, c: (int, int)) -> bool {
    let vx = d.spec_vector().x as int;
    let vy = d.spec_vector().y as int;
    let lx = d.spec_left().spec_vector().x as int;
    let ly = d.spec_left().spec_vector().y as int;
    ||| c == (p.x + vx, p.y + vy)
    ||| c == (p.x + vx + lx, p.y + vy + ly)
    ||| c == (p.x + vx - lx, p.y + vy - ly)
    ||| c == (p.x + 2 * vx, p.y + 2 * vy)
    ||| c == (p.x + 2 * vx + lx, p.y + 2 * vy + ly)
    ||| c == (p.x + 2 * vx - lx, p.y + 2 * vy - ly)
}

/// The two-cell corridor in front of a gate, with its flanking cells, fits
/// inside the grid.
pub open spec fn corridor_fits(p: Pos, d: Direction, w: int, h: int) -> bool {
    let vx = d.spec_vector().x as int;
    let vy = d.spec_vector().y as int;
    let lx = d.spec_left().spec_vector().x as int;
    let ly = d.spec_left().spec_vector().y as int;
    &&& in_b(p.x + vx, p.y + vy, w, h)
    &&& in_b(p.x + vx + lx, p.y + vy + ly, w, h)
    &&& in_b(p.x + vx - lx, p.y + vy - ly, w, h)
    &&& in_b(p.x + 2 * vx, p.y + 2 * vy, w, h)
    &&& in_b(p.x + 2 * vx + lx, p.y + 2 * vy + ly, w, h)
    &&& in_b(p.x + 2 * vx - lx, p.y + 2 * vy - ly, w, h)
}


/// Carves the corridor in front of the entry gate: two ice cells straight
/// in, the first flanked by walls, the second flanked by ice.
#[verifier::rlimit(100)]
fn carve_entry(map: &mut TileMap, p: Pos, d: Direction)
    requires
        old(map).wf(),
        corridor_fits(p, d, old(map).spec_width(), old(map).spec_height()),
    ensures
        final(map).wf(),
        final(map).spec_width() == old(map).spec_width(),
        final(map).spec_height() == old(map).spec_height(),
        forall|x: int, y: int|
            0 <= x < old(map).spec_width() && 0 <= y < old(map).spec_height() ==> (final(map)@[y][x]
                == old(map)@[y][x] || final(map)@[y][x] is Wall || final(map)@[y][x] is Ice),
        ({
            let vx = d.spec_vector().x as int;
            let vy = d.spec_vector().y as int;
            let lx = d.spec_left().spec_vector().x as int;
            let ly = d.spec_left().spec_vector().y as int;
            &&& final(map)@[p.y + vy][p.x + vx] is Ice
            &&& final(map)@[p.y + vy + ly][p.x + vx + lx] is Wall
            &&& final(map)@[p.y + vy - ly][p.x + vx - lx] is Wall
        }),
{
    proof {
        lemma_left_perp(d);
        crate::solver::lemma_unit_vector(d);
    }
    let sv = d.vector();
    let sl = d.left().vector();
    let sr = d.right().vector();
    paint(map, &p.plus(sv), Tile::Ice);
    paint(map, &p.plus(sv).plus(sl), Tile::Wall);
    paint(map, &p.plus(sv).plus(sr), Tile::Wall);
    paint(map, &p.plus(sv.scaled(2)), Tile::Ice);
    paint(map, &p.plus(sv.scaled(2)).plus(sl), Tile::Ice);
    paint(map, &p.plus(sv.scaled(2)).plus(sr), Tile::Ice);
}

/// Carves the apron in front of the exit gate: a three-wide, two-deep
/// patch of ice.
#[verifier::rlimit(100)]
fn carve_exit(map: &mut TileMap, p: Pos, d: Direction)
    requires
        old(map).wf(),
        corridor_fits(p, d, old(map).spec_width(), old(map).spec_height()),
    ensures
        final(map).wf(),
        final(map).spec_width() == old(map).spec_width(),
        final(map).spec_height() == old(map).spec_height(),
        forall|x: int, y: int|
            0 <= x < old(map).spec_width() && 0 <= y < old(map).spec_height() ==> (final(map)@[y][x]
                == old(map)@[y][x] || final(map)@[y][x] is Ice),
        forall|x: int, y: int|
            0 <= x < old(map).spec_width() && 0 <= y < old(map).spec_height() && !in_exit_apron(
                p,
                d,
                (x, y),
            ) ==> final(map)@[y][x] == old(map)@[y][x],
        ({
            let vx = d.spec_vector().x as int;
            let vy = d.spec_vector().y as int;
            let lx = d.spec_left().spec_vector().x as int;
            let ly = d.spec_left().spec_vector().y as int;
            &&& final(map)@[p.y + vy][p.x + vx] is Ice
            &&& final(map)@[p.y + vy + ly][p.x + vx + lx] is Ice
            &&& final(map)@[p.y + vy - ly][p.x + vx - lx] is Ice
            &&& final(map)@[p.y + 2 * vy][p.x + 2 * vx] is Ice
            &&& final(map)@[p.y + 2 * vy + ly][p.x + 2 * vx + lx] is Ice
            &&& final(map)@[p.y + 2 * vy - ly][p.x + 2 * vx - lx] is Ice
        }),
{
    proof {
        lemma_left_perp(d);
        crate::solver::lemma_unit_vector(d);
    }
    let ev = d.vector();
    let el = d.left().vector();
    let er = d.right().vector();
    paint(map, &p.plus(ev), Tile::Ice);
    paint(map, &p.plus(ev).plus(el), Tile::Ice);
    paint(map, &p.plus(ev).plus(er), Tile::Ice);
    paint(map, &p.plus(ev.scaled(2)), Tile::Ice);
    paint(map, &p.plus(ev.scaled(2)).plus(el), Tile::Ice);
    paint(map, &p.plus(ev.scaled(2)).plus(er), Tile::Ice);
}

/// Carves both gate corridors: in front of the entry, a straight two-cell
/// ice corridor whose first cell is flanked by walls; then the pocket
/// removal pass, which leaves the first corridor cell and its hardened
/// flanks in place; then an open three-wide, two-deep apron in front of the
/// exit. When the two gates share a row or column, the cell halfway between
/// them is walled first to rule out a straight shot.
#[verifier::loop_isolation(false)]
#[verifier::rlimit(100)]
pub fn asthetic_filter(
    map: &mut TileMap,
    start: &mut Pos,
    start_direction: Direction,
    end: &mut Pos,
    end_direction: Direction,
)
    requires
        old(map).wf(),
        old(map).spec_in_bounds(*old(start)),
        old(map).spec_in_bounds(*old(end)),
        corridor_fits(*old(start), start_direction, old(map).spec_width(), old(map).spec_height()),
        corridor_fits(*old(end), end_direction, old(map).spec_width(), old(map).spec_height()),
    ensures
        final(map).wf(),
        final(map).spec_width() == old(map).spec_width(),
        final(map).spec_height() == old(map).spec_height(),
        *final(start) == *old(start),
        *final(end) == *old(end),
        forall|x: int, y: int|
            0 <= x < old(map).spec_width() && 0 <= y < old(map).spec_height() ==> (final(map)@[y][x]
                == old(map)@[y][x] || final(map)@[y][x] is Wall || final(map)@[y][x] is Ice),
        ({
            let vx = end_direction.spec_vector().x as int;
            let vy = end_direction.spec_vector().y as int;
            let lx = end_direction.spec_left().spec_vector().x as int;
            let ly = end_direction.spec_left().spec_vector().y as int;
            let e = *old(end);
            &&& final(map)@[e.y + vy][e.x + vx] is Ice
            &&& final(map)@[e.y + vy + ly][e.x + vx + lx] is Ice
            &&& final(map)@[e.y + vy - ly][e.x + vx - lx] is Ice
            &&& final(map)@[e.y + 2 * vy][e.x + 2 * vx] is Ice
            &&& final(map)@[e.y + 2 * vy + ly][e.x + 2 * vx + lx] is Ice
            &&& final(map)@[e.y + 2 * vy - ly][e.x + 2 * vx - lx] is Ice
        }),
        (forall|c: (int, int)|
            in_exit_apron(*old(end), end_direction, c) ==> !in_entry_front(
                *old(start),
                start_direction,
                c,
            )) ==> ({
            let vx = start_direction.spec_vector().x as int;
            let vy = start_direction.spec_vector().y as int;
            let lx = start_direction.spec_left().spec_vector().x as int;
            let ly = start_direction.spec_left().spec_vector().y as int;
            let b = *old(start);
            &&& final(map)@[b.y + vy][b.x + vx] is Ice
            &&& final(map)@[b.y + vy + ly][b.x + vx + lx] is Wall
            &&& final(map)@[b.y + vy - ly][b.x + vx - lx] is Wall
        }),
{
    if start.x == end.x || start.y == end.y {
        let mean = start.midpoint(*end);
        paint(map, &mean, Tile::Wall);
    }
    carve_entry(map, *start, start_direction);
    let ghost m_carved = map@;
    remove_rooms(map, start, &start_direction);
    let ghost m_cleared = map@;
    carve_exit(map, *end, end_direction);
    proof {
        let vx = start_direction.spec_vector().x as int;
        let vy = start_direction.spec_vector().y as int;
        let lx = start_direction.spec_left().spec_vector().x as int;
        let ly = start_direction.spec_left().spec_vector().y as int;
        let b = *start;
        let front = (b.x + vx, b.y + vy);
        let flank_a = (b.x + vx + lx, b.y + vy + ly);
        let flank_b = (b.x + vx - lx, b.y + vy - ly);
        if forall|c: (int, int)|
            in_exit_apron(*end, end_direction, c) ==> !in_entry_front(b, start_direction, c) {
            assert(in_entry_front(b, start_direction, front));
            assert(in_entry_front(b, start_direction, flank_a));
            assert(in_entry_front(b, start_direction, flank_b));
            assert(!in_exit_apron(*end, end_direction, front));
            assert(!in_exit_apron(*end, end_direction, flank_a));
            assert(!in_exit_apron(*end, end_direction, flank_b));
            assert(m_cleared[front.1][front.0] == m_carved[front.1][front.0]);
            assert(m_cleared[front.1][front.0] is Ice);
            assert(m_carved[flank_a.1][flank_a.0] is Wall);
            assert(m_cleared[flank_a.1][flank_a.0] is Wall);
            assert(m_carved[flank_b.1][flank_b.0] is Wall);
            assert(m_cleared[flank_b.1][flank_b.0] is Wall);
            assert(map@[front.1][front.0] is Ice);
            assert(map@[flank_a.1][flank_a.0] is Wall);
            assert(map@[flank_b.1][flank_b.0] is Wall);
        }
    }
}

/// A region satisfying the flood closure laws holds every reachable cell.
proof fn lemma_path_in_closed_set(
    s: Set<(int, int)>,
    m: Seq<Seq<Tile>>,
    w: int,
    h: int,
    starts: Seq<Pos>,
    trav: Seq<Tile>,
    path: Seq<(int, int)>,
)
    requires
        flood_path_ok(m, w, h, trav, path),
        starts_contain(starts, path[0]),
        forall|i: int|
            0 <= i < starts.len() && 0 <= (#[trigger] starts[i]).x < w && 0 <= starts[i].y < h
                && tile_in(trav, m[starts[i].y as int][starts[i].x as int]) ==> s.contains(
                (starts[i].x as int, starts[i].y as int),
            ),
        forall|c: (int, int), n: (int, int)|
            #[trigger] s.contains(c) && #[trigger] adjacent(c, n) && 0 <= n.0 < w && 0 <= n.1 < h
                && tile_in(trav, m[n.1][n.0]) ==> s.contains(n),
    ensures
        s.contains(path.last()),
    decreases path.len(),
{
    if path.len() == 1 {
        let c = path[0];
        let i = choose|i: int|
            0 <= i < starts.len() && ((#[trigger] starts[i]).x as int, starts[i].y as int) == c;
        assert(s.contains(c));
    } else {
        let pre = path.take(path.len() - 1);
        assert(pre[0] == path[0]);
        assert(flood_path_ok(m, w, h, trav, pre)) by {
            assert forall|k: int|
                0 <= k < pre.len() implies 0 <= (#[trigger] pre[k]).0 < w && 0 <= pre[k].1 < h
                && tile_in(trav, m[pre[k].1][pre[k].0]) by {
                assert(pre[k] == path[k]);
            }
            assert forall|k: int| 0 <= k < pre.len() - 1 implies adjacent(
                pre[k],
                #[trigger] pre[k + 1],
            ) by {
                assert(pre[k] == path[k]);
                assert(pre[k + 1] == path[k + 1]);
            }
        }
        lemma_path_in_closed_set(s, m, w, h, starts, trav, pre);
        assert(pre.last() == path[path.len() - 2]);
        assert(path[path.len() - 1] == path.last());
        assert(adjacent(path[path.len() - 2], path[path.len() - 2 + 1]));
        assert(s.contains(path.last()));
    }
}

/// The grid after the reachability pruning pass: every interior cell not
/// walkable from a gate corridor becomes a wall, everything else stays.
pub open spec fn pruned(
    m: Seq<Seq<Tile>>,
    w: int,
    h: int,
    starts: Seq<Pos>,
    trav: Seq<Tile>,
) -> Seq<Seq<Tile>> {
    Seq::new(
        h as nat,
        |y: int|
            Seq::new(
                w as nat,
                |x: int|
                    if 1 <= x < w - 1 && 1 <= y < h - 1 && !flood_reachable(
                        m,
                        w,
                        h,
                        starts,
                        trav,
                        (x, y),
                    ) {
                        Tile::Wall
                    } else {
                        m[y][x]
                    },
            ),
    )
}

/// Every cell of a walk is walkable: the prefix ending there is a walk too.
proof fn lemma_path_cells_reachable(
    m: Seq<Seq<Tile>>,
    w: int,
    h: int,
    starts: Seq<Pos>,
    trav: Seq<Tile>,
    path: Seq<(int, int)>,
    k: int,
)
    requires
        flood_path_ok(m, w, h, trav, path),
        starts_contain(starts, path[0]),
        0 <= k < path.len(),
    ensures
        flood_reachable(m, w, h, starts, trav, path[k]),
{
    let pre = path.take(k + 1);
    assert(pre[0] == path[0]);
    assert(pre.last() == path[k]);
    assert(flood_path_ok(m, w, h, trav, pre)) by {
        assert forall|j: int|
            0 <= j < pre.len() implies 0 <= (#[trigger] pre[j]).0 < w && 0 <= pre[j].1 < h
            && tile_in(trav, m[pre[j].1][pre[j].0]) by {
            assert(pre[j] == path[j]);
        }
        assert forall|j: int| 0 <= j < pre.len() - 1 implies adjacent(
            pre[j],
            #[trigger] pre[j + 1],
        ) by {
            assert(pre[j] == path[j]);
            assert(pre[j + 1] == path[j + 1]);
        }
    }
}

/// Pruning changes no walkability: a cell walkable over the pruned grid
/// was walkable before, and the other way round.
proof fn lemma_pruned_reach_equal(
    m: Seq<Seq<Tile>>,
    w: int,
    h: int,
    starts: Seq<Pos>,
    trav: Seq<Tile>,
    c: (int, int),
)
    requires
        !tile_in(trav, Tile::Wall),
    ensures
        flood_reachable(pruned(m, w, h, starts, trav), w, h, starts, trav, c) == flood_reachable(
            m,
            w,
            h,
            starts,
            trav,
            c,
        ),
{
    let p = pruned(m, w, h, starts, trav);
    if flood_reachable(m, w, h, starts, trav, c) {
        let path = choose|path: Seq<(int, int)>|
            flood_path_ok(m, w, h, trav, path) && starts_contain(starts, #[trigger] path[0])
                && path.last() == c;
        assert(flood_path_ok(p, w, h, trav, path)) by {
            assert forall|k: int|
                0 <= k < path.len() implies 0 <= (#[trigger] path[k]).0 < w && 0 <= path[k].1 < h
                && tile_in(trav, p[path[k].1][path[k].0]) by {
                lemma_path_cells_reachable(m, w, h, starts, trav, path, k);
                assert(p[path[k].1][path[k].0] == m[path[k].1][path[k].0]);
            }
        }
        assert(flood_reachable(p, w, h, starts, trav, c));
    }
    if flood_reachable(p, w, h, starts, trav, c) {
        let path = choose|path: Seq<(int, int)>|
            flood_path_ok(p, w, h, trav, path) && starts_contain(starts, #[trigger] path[0])
                && path.last() == c;
        assert(flood_path_ok(m, w, h, trav, path)) by {
            assert forall|k: int|
                0 <= k < path.len() implies 0 <= (#[trigger] path[k]).0 < w && 0 <= path[k].1 < h
                && tile_in(trav, m[path[k].1][path[k].0]) by {
                assert(tile_in(trav, p[path[k].1][path[k].0]));
                assert(!(p[path[k].1][path[k].0] is Wall));
                assert(p[path[k].1][path[k].0] == m[path[k].1][path[k].0]);
            }
        }
        assert(flood_reachable(m, w, h, starts, trav, c));
    }
}

/// Pruning an already-pruned grid changes nothing: the pass is a fixed
/// point after one application, as long as walls are not themselves
/// walkable.
pub proof fn lemma_prune_idempotent(
    m: Seq<Seq<Tile>>,
    w: int,
    h: int,
    starts: Seq<Pos>,
    trav: Seq<Tile>,
)
    requires
        !tile_in(trav, Tile::Wall),
    ensures
        pruned(pruned(m, w, h, starts, trav), w, h, starts, trav) == pruned(m, w, h, starts, trav),
{
    let p1 = pruned(m, w, h, starts, trav);
    let p2 = pruned(p1, w, h, starts, trav);
    assert forall|y: int, x: int| 0 <= y < h && 0 <= x < w implies p2[y][x] == p1[y][x] by {
        lemma_pruned_reach_equal(m, w, h, starts, trav, (x, y));
        if 1 <= x < w - 1 && 1 <= y < h - 1 && !flood_reachable(m, w, h, starts, trav, (x, y)) {
            assert(p1[y][x] == Tile::Wall);
            assert(p2[y][x] == Tile::Wall);
        } else {
            assert(p2[y][x] == p1[y][x]);
        }
    }
    assert(p2 =~~= p1);
}

/// The tiles the reachability flood may cross.
pub open spec fn spec_passable_tiles() -> Seq<Tile> {
    seq![Tile::Ice, Tile::WeakWall(1u8), Tile::Box]
}

/// The cells straight inward of each gate, where the reachability flood
/// starts.
pub open spec fn spec_corridor_starts(gates: Seq<crate::gate::GateEntry>) -> Seq<Pos> {
    gates.map_values(
        |g: crate::gate::GateEntry|
            Pos {
                x: (g.pos.x + g.inwards_direction.spec_vector().x) as isize,
                y: (g.pos.y + g.inwards_direction.spec_vector().y) as isize,
            },
    )
}

/// Floods from both gate corridors over passable tiles and walls off every
/// interior cell the flood does not reach, exactly as `pruned` describes.
#[verifier::loop_isolation(false)]
#[verifier::rlimit(100)]
pub fn prune_unreachable(board: Board) -> (r: Board)
    requires
        board.wf(),
    ensures
        r.wf(),
        r.map.spec_width() == board.map.spec_width(),
        r.map.spec_height() == board.map.spec_height(),
        r.gates@ == board.gates@,
        r.map@ == pruned(
            board.map@,
            board.map.spec_width(),
            board.map.spec_height(),
            spec_corridor_starts(board.gates@),
            spec_passable_tiles(),
        ),
{
    let ghost w = board.map.spec_width();
    let ghost h = board.map.spec_height();
    let ghost m0 = board.map@;

    let mut starts: Vec<Pos> = Vec::new();
    let mut gi: usize = 0;
    while gi < board.gates.len()
        invariant
            gi <= board.gates@.len(),
            starts@.len() == gi,
            forall|j: int|
                0 <= j < gi ==> #[trigger] starts@[j] == spec_corridor_starts(board.gates@)[j],
        decreases board.gates@.len() - gi,
    {
        let g = board.gates[gi];
        starts.push(g.pos.plus(g.inwards_direction.vector()));
        gi = gi + 1;
    }
    proof {
        assert(starts@ =~= spec_corridor_starts(board.gates@));
    }

    let mut trav: Vec<Tile> = Vec::new();
    trav.push(Tile::Ice);
    trav.push(Tile::WeakWall(1));
    trav.push(Tile::Box);
    proof {
        assert(trav@ =~= spec_passable_tiles());
    }
    let ghost trav_view = trav@;
    let ghost starts_view = starts@;

    let reachability = flood(starts, &board.map, trav);
    proof {
        assert forall|c: (int, int)|
            0 <= c.0 < w && 0 <= c.1 < h && flood_reachable(
                m0,
                w,
                h,
                starts_view,
                trav_view,
                c,
            ) implies vset(reachability).contains(c) by {
            let path = choose|path: Seq<(int, int)>|
                flood_path_ok(m0, w, h, trav_view, path) && starts_contain(
                    starts_view,
                    #[trigger] path[0],
                ) && path.last() == c;
            lemma_path_in_closed_set(
                vset(reachability),
                m0,
                w,
                h,
                starts_view,
                trav_view,
                path,
            );
        }
    }

    let mut out = board;
    let width = out.map.get_width();
    let height = out.map.get_height();
    let mut x: isize = 1;
    while x < width - 1
        invariant
            1 <= x <= vstd::math::max(width as int - 1, 1),
            out.map.wf(),
            out.map.spec_width() == w,
            out.map.spec_height() == h,
            out.gates@ == board.gates@,
            forall|yy: int, xx: int|
                0 <= yy < h && 0 <= xx < w ==> out.map@[yy][xx] == (if 1 <= xx < x && 1 <= yy < h
                    - 1 && !flood_reachable(m0, w, h, starts_view, trav_view, (xx, yy)) {
                    Tile::Wall
                } else {
                    m0[yy][xx]
                }),
        decreases width - x,
    {
        let mut y: isize = 1;
        while y < height - 1
            invariant
                1 <= y <= vstd::math::max(height as int - 1, 1),
                1 <= x < w - 1,
                out.map.wf(),
                out.map.spec_width() == w,
                out.map.spec_height() == h,
                out.gates@ == board.gates@,
                forall|yy: int, xx: int|
                    0 <= yy < h && 0 <= xx < w ==> out.map@[yy][xx] == (if (1 <= xx < x && 1 <= yy
                        < h - 1 && !flood_reachable(m0, w, h, starts_view, trav_view, (xx, yy)))
                        || (xx == x && 1 <= yy < y && !flood_reachable(
                        m0,
                        w,
                        h,
                        starts_view,
                        trav_view,
                        (xx, yy),
                    )) {
                        Tile::Wall
                    } else {
                        m0[yy][xx]
                    }),
            decreases height - y,
        {
            let p = Pos::new(x, y);
            let ghost cc = (x as int, y as int);
            if !reachability.contains(&p) {
                proof {
                    assert(!vset(reachability).contains(cc));
                    assert(!flood_reachable(m0, w, h, starts_view, trav_view, cc));
                }
                out.map.set(&p, Tile::Wall);
            } else {
                proof {
                    assert(vset(reachability).contains(cc));
                    assert(flood_reachable(m0, w, h, starts_view, trav_view, cc));
                }
            }
            y = y + 1;
        }
        x = x + 1;
    }
    proof {
        assert(out.map@ =~~= pruned(m0, w, h, starts_view, trav_view));
        assert forall|k: int| 0 <= k < out.gates@.len() implies out.map.spec_in_bounds(
            (#[trigger] out.gates@[k]).pos,
        ) by {
            assert(board.map.spec_in_bounds(board.gates@[k].pos));
        }
    }
    out
}

/// Whether two rows of the grid hold equal tiles cell for cell.
pub open spec fn rows_eq(m: Seq<Seq<Tile>>, w: int, y1: int, y2: int) -> bool {
    forall|x: int| 0 <= x < w ==> tile_eq(m[y1][x], #[trigger] m[y2][x])
}

/// Compares two rows of the grid cell for cell.
fn rows_equal(map: &TileMap, y1: isize, y2: isize) -> (r: bool)
    requires
        map.wf(),
        0 <= y1 < map.spec_height(),
        0 <= y2 < map.spec_height(),
    ensures
        r == rows_eq(map@, map.spec_width(), y1 as int, y2 as int),
{
    let w = map.get_width();
    let mut x: isize = 0;
    while x < w
        invariant
            0 <= x <= w,
            map.wf(),
            w == map.spec_width(),
            0 <= y1 < map.spec_height(),
            0 <= y2 < map.spec_height(),
            forall|xx: int|
                0 <= xx < x ==> tile_eq(
                    map@[y1 as int][xx],
                    #[trigger] map@[y2 as int][xx],
                ),
        decreases w - x,
    {
        let a = map.atxy(x, y1);
        let b = map.atxy(x, y2);
        if !(a == b) {
            return false;
        }
        x = x + 1;
    }
    true
}

/// Whether any gate of the list stands on the given row.
fn gate_on_row(gates: &Vec<crate::gate::GateEntry>, y: isize) -> (r: bool)
    ensures
        r == exists|i: int| 0 <= i < gates@.len() && (#[trigger] gates@[i]).pos.y == y,
{
    let mut i: usize = 0;
    while i < gates.len()
        invariant
            i <= gates@.len(),
            forall|j: int| 0 <= j < i ==> (#[trigger] gates@[j]).pos.y != y,
        decreases gates@.len() - i,
    {
        if gates[i].pos.y == y {
            return true;
        }
        i = i + 1;
    }
    false
}

/// Turns boxes wedged against a wall to their east and south into walls;
/// cells only ever harden, nothing is opened up.
#[verifier::loop_isolation(false)]
fn harden_cornered_boxes(board: &mut Board)
    requires
        old(board).wf(),
    ensures
        final(board).wf(),
        final(board).map.spec_width() == old(board).map.spec_width(),
        final(board).map.spec_height() == old(board).map.spec_height(),
        final(board).gates@ == old(board).gates@,
        forall|x: int, y: int|
            0 <= x < old(board).map.spec_width() && 0 <= y < old(board).map.spec_height() ==> (
            final(board).map@[y][x] == old(board).map@[y][x] || (old(board).map@[y][x] is Box
                && final(board).map@[y][x] is Wall)),
{
    let ghost w = board.map.spec_width();
    let ghost h = board.map.spec_height();
    let ghost m0 = old(board).map@;
    let inner_pos = board.map.all_inner_pos();
    let mut i: usize = 0;
    while i < inner_pos.len()
        invariant
            i <= inner_pos@.len(),
            board.wf(),
            board.map.spec_width() == w,
            board.map.spec_height() == h,
            board.gates@ == old(board).gates@,
            forall|x: int, y: int|
                0 <= x < w && 0 <= y < h ==> (board.map@[y][x] == m0[y][x] || (m0[y][x] is Box
                    && board.map@[y][x] is Wall)),
        decreases inner_pos@.len() - i,
    {
        let p = inner_pos[i];
        i = i + 1;
        if matches!(board.map.at(&p), Tile::Box) && matches!(
            board.map.at(&p.plus(Pos::new(1, 0))),
            Tile::Wall,
        ) && matches!(board.map.at(&p.plus(Pos::new(0, 1))), Tile::Wall) {
            proof {
                assert(m0[p.y as int][p.x as int] is Box);
            }
            board.map.set(&p, Tile::Wall);
        }
    }
}


/// The second room is the first with trailing rows trimmed away and some
/// boxes hardened to walls: a prefix of the rows, cell for cell equal
/// except where a box became a wall.
pub open spec fn trimmed_hardened(mid: Board, b: Board) -> bool {
    &&& b.map.spec_width() == mid.map.spec_width()
    &&& 1 <= b.map.spec_height() <= mid.map.spec_height()
    &&& b.gates@ == mid.gates@
    &&& forall|x: int, y: int|
        0 <= x < b.map.spec_width() && 0 <= y < b.map.spec_height() ==> (b.map@[y][x]
            == mid.map@[y][x] || (mid.map@[y][x] is Box && b.map@[y][x] is Wall))
}

/// One quarter of the final revolution: the room turned left, then trimmed
/// and hardened.
pub open spec fn quarter_turned(a: Board, b: Board) -> bool {
    exists|mid: Board| #[trigger] crate::board::rotated_from(a, mid) && trimmed_hardened(mid, b)
}

/// The room after a full revolution: four quarter turns, each followed by
/// trimming and hardening.
pub open spec fn revolved_four(a: Board, b: Board) -> bool {
    exists|c1: Board, c2: Board, c3: Board|
        #[trigger] quarter_turned(a, c1) && #[trigger] quarter_turned(c1, c2)
            && #[trigger] quarter_turned(c2, c3) && quarter_turned(c3, b)
}

/// Final presentation pass on a picked room: walls off everything that no gate
/// corridor can reach (twice, reaching the fixed point of the pruning
/// pass), then turns the room through a full revolution, trimming duplicate
/// trailing gate-free rows and hardening cornered boxes after each quarter
/// turn to normalize the footprint.
///
/// The result is pinned as the twice-pruned room carried through four
/// exact quarter turns, each followed by a row-prefix trim and a
/// box-to-wall hardening (`revolved`). The pruning phase alone is a fixed
/// point (`prune_unreachable`, `lemma_prune_idempotent`); the hardening
/// after the turns can orphan cells again, so the returned grid itself is
/// not promised to be pruned.
#[verifier::loop_isolation(false)]
#[allow(unused_variables)]
pub fn asthetic_cleanup(ret: Board, analysis: &Analysis, initial_gate_id: usize) -> (r: Board)
    requires
        ret.wf(),
    ensures
        r.wf(),
        r.gates@.len() == ret.gates@.len(),
        ({
            let w = ret.map.spec_width();
            let h = ret.map.spec_height();
            let starts = spec_corridor_starts(ret.gates@);
            let trav = spec_passable_tiles();
            let m2 = pruned(pruned(ret.map@, w, h, starts, trav), w, h, starts, trav);
            exists|p: Board|
                p.map@ == m2 && p.gates@ == ret.gates@ && p.map.spec_width() == w
                    && p.map.spec_height() == h && #[trigger] revolved_four(p, r)
        }),
{
    let ghost w0 = ret.map.spec_width();
    let ghost h0 = ret.map.spec_height();
    let ghost g0 = ret.gates@;
    let mut out = prune_unreachable(ret);
    out = prune_unreachable(out);
    let ghost p2 = out;
    let ghost mut trail: Seq<Board> = Seq::empty();

    let ghost n_gates = out.gates@.len();

    let mut rot: usize = 0;
    while rot < 4
        invariant
            rot <= 4,
            out.wf(),
            out.gates@.len() == n_gates,
            trail.len() == rot as int,
            rot >= 1 ==> quarter_turned(p2, trail[0]),
            forall|i: int| 1 <= i < trail.len() ==> quarter_turned(trail[i - 1], #[trigger] trail[i]),
            rot >= 1 ==> trail.last() == out,
            rot == 0 ==> out == p2,
        decreases 4 - rot,
    {
        let ghost before = out;
        out = out.rotate_left();
        let ghost mid = out;
        proof {
            assert(crate::board::rotated_from(before, mid));
        }

        while out.map.get_height() > 2 && !gate_on_row(&out.gates, out.map.get_height() - 1)
            && rows_equal(&out.map, out.map.get_height() - 1, out.map.get_height() - 2)
            invariant
                out.wf(),
                out.gates@.len() == n_gates,
                out.gates@ == mid.gates@,
                out.map.spec_width() == mid.map.spec_width(),
                1 <= out.map.spec_height() <= mid.map.spec_height(),
                out.map@ == mid.map@.take(out.map.spec_height()),
            decreases out.map.spec_height(),
        {
            let ghost pre = out;
            out.map.pop_row();
            proof {
                assert forall|k: int| 0 <= k < out.gates@.len() implies out.map.spec_in_bounds(
                    (#[trigger] out.gates@[k]).pos,
                ) by {
                    assert(pre.map.spec_in_bounds(pre.gates@[k].pos));
                    assert(pre.gates@[k].pos.y != pre.map.spec_height() - 1);
                }
                assert(mid.map@.take(pre.map.spec_height()).take(pre.map.spec_height() - 1)
                    =~= mid.map@.take(pre.map.spec_height() - 1));
            }
        }
        let ghost trimmed = out;

        harden_cornered_boxes(&mut out);
        proof {
            assert(trimmed_hardened(mid, out)) by {
                assert forall|x: int, y: int|
                    0 <= x < out.map.spec_width() && 0 <= y < out.map.spec_height() implies (
                out.map@[y][x] == mid.map@[y][x] || (mid.map@[y][x] is Box
                    && out.map@[y][x] is Wall)) by {
                    assert(trimmed.map@[y][x] == mid.map@[y][x]);
                }
            }
            assert(quarter_turned(before, out));
            trail = trail.push(out);
        }
        rot = rot + 1;
    }
    proof {
        assert(p2.map@ == pruned(
            pruned(ret.map@, w0, h0, spec_corridor_starts(g0), spec_passable_tiles()),
            w0,
            h0,
            spec_corridor_starts(g0),
            spec_passable_tiles(),
        ));
        assert(quarter_turned(p2, trail[0]));
        assert(quarter_turned(trail[0], trail[1]));
        assert(quarter_turned(trail[1], trail[2]));
        assert(quarter_turned(trail[2], trail[3]));
        assert(trail[3] == out);
        assert(revolved_four(p2, out));
    }
    out
}

} // verus!

use vstd::prelude::*;

use crate::matrix::{Matrix, TileMap};
use crate::pos::Pos;
use crate::tile::Tile;
use crate::Cell;

verus! {

/// The per-cell presentation hints derived from a tile grid: an asset name
/// and a quarter-turn count, or nothing for cells that show no asset.
pub type AssetMap = Matrix<Option<(String, isize)>>;

impl Cell for Option<(String, isize)> {
    open spec fn spec_blank() -> Option<(String, isize)> {
        Option::None
    }

    fn blank() -> (r: Option<(String, isize)>)
        ensures
            r == Option::<(String, isize)>::None,
    {
        Option::None
    }

    fn duplicate(&self) -> (r: Option<(String, isize)>)
        ensures
            r == *self,
    {
        match self {
            Option::Some(t) => Option::Some((t.0.clone(), t.1)),
            Option::None => Option::None,
        }
    }
}

/// The flat indices of cells the texturing pass still treats as wall mass.
pub open spec fn wallish_set(m: Seq<Seq<Tile>>, w: int, h: int) -> Set<int> {
    Set::new(
        |i: int| 0 <= i < w * h && m[i / w][i % w].spec_is_a_wall_for_texturing(),
    )
}

proof fn lemma_wallish_set_bound(m: Seq<Seq<Tile>>, w: int, h: int)
    requires
        1 <= w,
        1 <= h,
    ensures
        wallish_set(m, w, h).finite(),
        wallish_set(m, w, h).len() <= w * h,
{
    let univ = vstd::set_lib::set_int_range(0, w * h);
    vstd::set_lib::lemma_int_range(0, w * h);
    assert(wallish_set(m, w, h).subset_of(univ));
    vstd::set_lib::lemma_len_subset(wallish_set(m, w, h), univ);
}

/// Melting a wall-mass cell to ice removes exactly its flat index from the
/// wall-mass pool.
proof fn lemma_wallish_set_melt(m: Seq<Seq<Tile>>, w: int, h: int, x: int, y: int)
    requires
        1 <= w <= 10000,
        1 <= h <= 10000,
        0 <= x < w,
        0 <= y < h,
        m.len() == h,
        forall|yy: int| 0 <= yy < h ==> (#[trigger] m[yy]).len() == w,
    ensures
        wallish_set(crate::board::gview_set(m, x, y, Tile::Ice), w, h) == wallish_set(
            m,
            w,
            h,
        ).remove(y * w + x),
{
    let m2 = crate::board::gview_set(m, x, y, Tile::Ice);
    let ip = y * w + x;
    crate::matrix::lemma_grid_index(w, h, x, y);
    assert forall|i: int|
        wallish_set(m2, w, h).contains(i) == wallish_set(m, w, h).remove(ip).contains(i) by {
        if 0 <= i < w * h {
            let qx = i % w;
            let qy = i / w;
            vstd::arithmetic::div_mod::lemma_fundamental_div_mod(i, w);
            assert(0 <= qx < w) by {
                vstd::arithmetic::div_mod::lemma_mod_bound(i, w);
            }
            assert(qy * w == w * qy) by (nonlinear_arith);
            assert(h * w == w * h) by (nonlinear_arith);
            assert(0 <= qy < h) by {
                if qy < 0 {
                    vstd::arithmetic::mul::lemma_mul_inequality(qy, -1, w);
                }
                if qy >= h {
                    vstd::arithmetic::mul::lemma_mul_inequality(h, qy, w);
                }
            }
            if i == ip {
                assert(qx == x && qy == y) by {
                    crate::matrix::lemma_grid_index_injective(w, qx, qy, x, y);
                }
                assert(m2[qy][qx] == Tile::Ice);
            } else {
                assert(!(qx == x && qy == y));
                assert(m2[qy][qx] == m[qy][qx]);
            }
        }
    }
    assert(wallish_set(m2, w, h) =~= wallish_set(m, w, h).remove(ip));
}

impl AssetMap {
    /// Builds the presentation hints for a tile grid: free-standing wall
    /// stubs are first melted down to single obstacle markers on a working
    /// copy, until every remaining wall cell is anchored on two sides; every
    /// cell still without an asset then picks one from its neighbourhood.
    #[verifier::loop_isolation(false)]
    #[verifier::rlimit(100)]
    pub fn from_tilemap(tilemap: &TileMap) -> (r: AssetMap)
        requires
            tilemap.wf(),
        ensures
            r.wf(),
            r.spec_width() == tilemap.spec_width(),
            r.spec_height() == tilemap.spec_height(),
    {
        let ghost w = tilemap.spec_width();
        let ghost h = tilemap.spec_height();
        let mut ret: AssetMap = Matrix::new(tilemap.get_width(), tilemap.get_height());
        let mut wip_tilemap = tilemap.clone();
        proof {
            lemma_wallish_set_bound(wip_tilemap@, w, h);
        }

        let all_pos = tilemap.all_pos();

        let mut rep = true;
        while rep
            invariant
                ret.wf(),
                ret.spec_width() == w,
                ret.spec_height() == h,
                wip_tilemap.wf(),
                wip_tilemap.spec_width() == w,
                wip_tilemap.spec_height() == h,
                wallish_set(wip_tilemap@, w, h).finite(),
                wallish_set(wip_tilemap@, w, h).len() <= w * h,
            decreases 2 * wallish_set(wip_tilemap@, w, h).len() + (if rep {
                1int
            } else {
                0int
            }),
        {
            rep = false;
            let ghost entry_walls = wallish_set(wip_tilemap@, w, h).len();

            let mut i: usize = 0;
            while i < all_pos.len()
                invariant
                    i <= all_pos@.len(),
                    ret.wf(),
                    ret.spec_width() == w,
                    ret.spec_height() == h,
                    wip_tilemap.wf(),
                    wip_tilemap.spec_width() == w,
                    wip_tilemap.spec_height() == h,
                    wallish_set(wip_tilemap@, w, h).finite(),
                    wallish_set(wip_tilemap@, w, h).len() <= entry_walls,
                    rep ==> wallish_set(wip_tilemap@, w, h).len() < entry_walls,
                decreases all_pos@.len() - i,
            {
                let p = all_pos[i];
                i = i + 1;
                if !wip_tilemap.in_bounds(&p) {
                    continue ;
                }

                if matches!(wip_tilemap.at(&p), Tile::Wall) {
                    let mut neigh_count: isize = 0;
                    let dirs = crate::direction::Direction::all();
                    let mut k: usize = 0;
                    while k < dirs.len()
                        invariant
                            k <= dirs@.len(),
                            0 <= neigh_count <= k,
                            wip_tilemap.wf(),
                            wip_tilemap.spec_width() == w,
                            wip_tilemap.spec_height() == h,
                            wip_tilemap.spec_in_bounds(p),
                        decreases dirs@.len() - k,
                    {
                        let d = dirs[k];
                        k = k + 1;
                        if wip_tilemap.at(&p.plus(d.vector())).is_a_wall_for_texturing() {
                            neigh_count = neigh_count + 1;
                        }
                    }
                    if neigh_count < 2 {
                        ret.set(&p, Option::Some(("1x1_obstacle.png".to_string(), 0)));
                        melt(&mut wip_tilemap, &p);
                        rep = true;
                    }

                    if matches!(wip_tilemap.at(&p), Tile::Wall)
                        && !wip_tilemap.at(&p.plus(Pos::new(1, 0))).is_a_wall_for_texturing()
                        && !wip_tilemap.at(&p.plus(Pos::new(-1, 0))).is_a_wall_for_texturing() {
                        ret.set(&p, Option::Some(("1x1_obstacle.png".to_string(), 0)));
                        melt(&mut wip_tilemap, &p);
                        rep = true;
                    }

                    if matches!(wip_tilemap.at(&p), Tile::Wall)
                        && !wip_tilemap.at(&p.plus(Pos::new(0, 1))).is_a_wall_for_texturing()
                        && !wip_tilemap.at(&p.plus(Pos::new(0, -1))).is_a_wall_for_texturing() {
                        ret.set(&p, Option::Some(("1x1_obstacle.png".to_string(), 0)));
                        melt(&mut wip_tilemap, &p);
                        rep = true;
                    }
                }
            }
        }

        let mut i: usize = 0;
        while i < all_pos.len()
            invariant
                i <= all_pos@.len(),
                ret.wf(),
                ret.spec_width() == w,
                ret.spec_height() == h,
                wip_tilemap.wf(),
                wip_tilemap.spec_width() == w,
                wip_tilemap.spec_height() == h,
            decreases all_pos@.len() - i,
        {
            let p = all_pos[i];
            i = i + 1;
            if !wip_tilemap.in_bounds(&p) {
                continue ;
            }
            if matches!(ret.at(&p), Option::None) {
                let asset = wip_tilemap.neighbour_at(&p).get_asset();
                ret.set(&p, asset);
            }
        }

        ret
    }
}

/// Melts one wall cell of the working copy to ice, shrinking the wall-mass
/// pool by exactly that cell.
fn melt(map: &mut TileMap, p: &Pos)
    requires
        old(map).wf(),
        old(map).spec_in_bounds(*p),
        old(map).cell(*p) is Wall,
    ensures
        final(map).wf(),
        final(map).spec_width() == old(map).spec_width(),
        final(map).spec_height() == old(map).spec_height(),
        wallish_set(final(map)@, final(map).spec_width(), final(map).spec_height())
            == wallish_set(old(map)@, old(map).spec_width(), old(map).spec_height()).remove(
            p.y as int * old(map).spec_width() + p.x as int,
        ),
        wallish_set(old(map)@, old(map).spec_width(), old(map).spec_height()).contains(
            p.y as int * old(map).spec_width() + p.x as int,
        ),
{
    proof {
        let w = map.spec_width();
        let h = map.spec_height();
        lemma_wallish_set_melt(map@, w, h, p.x as int, p.y as int);
        crate::matrix::lemma_grid_index(w, h, p.x as int, p.y as int);
        vstd::arithmetic::div_mod::lemma_fundamental_div_mod_converse(
            p.y as int * w + p.x as int,
            w,
            p.y as int,
            p.x as int,
        );
    }
    map.set(p, Tile::Ice);
}

} // verus!

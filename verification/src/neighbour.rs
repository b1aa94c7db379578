use vstd::prelude::*;

use crate::metadata::GateMetadata;
use crate::rng::random_below;
use crate::tile::Tile;

verus! {

/// The 3-by-3 sample of cells around one grid coordinate.
#[derive(Debug)]
pub struct Neighbour<T> {
    pub center: T,
    pub north: T,
    pub south: T,
    pub east: T,
    pub west: T,
    pub northwest: T,
    pub northeast: T,
    pub southwest: T,
    pub southeast: T,
}

impl Neighbour<Tile> {
    /// The same sample with the centre replaced.
    pub fn mask_center(&self, tile: Tile) -> (r: Self)
        ensures
            r.center == tile,
            r.north == self.north,
            r.south == self.south,
            r.east == self.east,
            r.west == self.west,
            r.northwest == self.northwest,
            r.northeast == self.northeast,
            r.southwest == self.southwest,
            r.southeast == self.southeast,
    {
        Neighbour {
            center: tile,
            north: self.north.clone(),
            south: self.south.clone(),
            east: self.east.clone(),
            west: self.west.clone(),
            northwest: self.northwest.clone(),
            northeast: self.northeast.clone(),
            southwest: self.southwest.clone(),
            southeast: self.southeast.clone(),
        }
    }

    /// Each sampled tile reduced to whether texturing treats it as wall.
    pub fn to_is_a_wall_for_texturing(&self) -> (r: Neighbour<bool>)
        ensures
            r.center == self.center.spec_is_a_wall_for_texturing(),
            r.north == self.north.spec_is_a_wall_for_texturing(),
            r.south == self.south.spec_is_a_wall_for_texturing(),
            r.east == self.east.spec_is_a_wall_for_texturing(),
            r.west == self.west.spec_is_a_wall_for_texturing(),
            r.northwest == self.northwest.spec_is_a_wall_for_texturing(),
            r.northeast == self.northeast.spec_is_a_wall_for_texturing(),
            r.southwest == self.southwest.spec_is_a_wall_for_texturing(),
            r.southeast == self.southeast.spec_is_a_wall_for_texturing(),
    {
        Neighbour {
            center: self.center.is_a_wall_for_texturing(),
            north: self.north.is_a_wall_for_texturing(),
            south: self.south.is_a_wall_for_texturing(),
            east: self.east.is_a_wall_for_texturing(),
            west: self.west.is_a_wall_for_texturing(),
            northwest: self.northwest.is_a_wall_for_texturing(),
            northeast: self.northeast.is_a_wall_for_texturing(),
            southwest: self.southwest.is_a_wall_for_texturing(),
            southeast: self.southeast.is_a_wall_for_texturing(),
        }
    }
}

impl<T: Clone> Neighbour<T> {
    /// The sample as it reads after turning the grid 90 degrees
    /// counterclockwise under a fixed observer.
    pub(crate) fn rotate_left(&self) -> (r: Neighbour<T>)
        ensures
            cloned(self.center, r.center),
            cloned(self.east, r.north),
            cloned(self.west, r.south),
            cloned(self.south, r.east),
            cloned(self.north, r.west),
            cloned(self.southeast, r.northeast),
            cloned(self.southwest, r.southeast),
            cloned(self.northeast, r.northwest),
            cloned(self.northwest, r.southwest),
    {
        Neighbour {
            center: self.center.clone(),
            north: self.east.clone(),
            south: self.west.clone(),
            east: self.south.clone(),
            west: self.north.clone(),
            northeast: self.southeast.clone(),
            southeast: self.southwest.clone(),
            northwest: self.northeast.clone(),
            southwest: self.northwest.clone(),
        }
    }
}

impl Neighbour<Tile> {
    /// Picks the presentation asset for the centre tile from its
    /// neighbourhood: open and decorated tiles show ice, stops their marker,
    /// and wall masses pick a wall piece by matching the neighbourhood
    /// against a pattern table in each of the four orientations, drawing a
    /// variant at random for plain wall runs.
    pub fn get_asset(&self) -> (r: Option<(String, isize)>)
        ensures
            self.center is Outside ==> r is None,
            self.center is Stop ==> (r matches Option::Some(t) && t.0@ == "stop.png"@ && t.1
                == 0),
            (self.center is Ice || self.center is WeakWall || self.center is Box
                || self.center matches Tile::Sign { .. } || self.center matches Tile::Gate(
                GateMetadata::Exit { .. },
            )) ==> (r matches Option::Some(t) && t.0@ == "ice.png"@ && t.1 == 0),
    {
        match &self.center {
            Tile::Gate(GateMetadata::Exit { .. }) | Tile::Ice | Tile::WeakWall(_)
                | Tile::Sign { .. } | Tile::Box => Option::Some(("ice.png".to_string(), 0)),
            Tile::Outside => Option::None,
            Tile::Stop => Option::Some(("stop.png".to_string(), 0)),
            Tile::Wall | Tile::Gate(_) => {
                let mut rotator = self.mask_center(self.center.clone());
                let mut ret: Option<(String, isize)> = Option::None;
                let mut ret_priority: isize = 0;
                let mut i: isize = 0;
                while i < 4
                    invariant
                        0 <= i <= 4,
                    decreases 4 - i,
                {
                    let masks = rotator.to_is_a_wall_for_texturing();
                    let (priority, new_ret): (isize, Option<(String, isize)>) = if masks.southwest
                        && !masks.northwest && !masks.southeast && masks.northeast && masks.south
                        && masks.west && masks.north && masks.east {
                        (500, Option::Some(("wall_double_corner.png".to_string(), i)))
                    } else if !masks.southwest && masks.south && masks.west && masks.north
                        && masks.east {
                        (300, Option::Some(("wall_corner_in.png".to_string(), i)))
                    } else if !masks.south && !masks.west && masks.north && masks.east
                        && masks.northeast {
                        (200, Option::Some(("wall_corner_out.png".to_string(), i)))
                    } else if !masks.south && masks.north {
                        (100, Option::Some((wall_variant_name(), i)))
                    } else {
                        (0, Option::None)
                    };
                    if priority > ret_priority {
                        ret_priority = priority;
                        ret = new_ret;
                    }
                    rotator = rotator.rotate_left();
                    i = i + 1;
                }
                ret
            },
        }
    }
}

/// One of the eight plain wall piece names, drawn at random.
fn wall_variant_name() -> (r: String) {
    let n = random_below(8);
    let name: &str = if n == 0 {
        "wall/1.png"
    } else if n == 1 {
        "wall/2.png"
    } else if n == 2 {
        "wall/3.png"
    } else if n == 3 {
        "wall/4.png"
    } else if n == 4 {
        "wall/5.png"
    } else if n == 5 {
        "wall/6.png"
    } else if n == 6 {
        "wall/7.png"
    } else {
        "wall/8.png"
    };
    name.to_string()
}

} // verus!

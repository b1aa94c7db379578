use vstd::prelude::*;

use std::collections::HashMap;

use crate::metadata::{gate_meta_eq, label_eq, meta_eq, GateMetadata};
use crate::Cell;
use crate::LeftRotatable;

verus! {

broadcast use vstd::std_specs::hash::group_hash_axioms;


/// The state of one grid cell.
///
/// `Outside` is the sentinel for out-of-bounds queries and is never stored;
/// `Sign` is a decorative marker used only by hand-authored lobby rooms.
#[derive(Debug)]
pub enum Tile {
    Gate(GateMetadata),
    Wall,
    Ice,
    Stop,
    WeakWall(u8),
    Box,
    Outside,
    Sign { text: String, width: isize, height: isize },
}

/// Equality of tiles, with string payloads compared by value.
pub open spec fn tile_eq(a: Tile, b: Tile) -> bool {
    match (a, b) {
        (Tile::Gate(m1), Tile::Gate(m2)) => meta_eq(m1, m2),
        (Tile::Wall, Tile::Wall) => true,
        (Tile::Ice, Tile::Ice) => true,
        (Tile::Stop, Tile::Stop) => true,
        (Tile::WeakWall(h1), Tile::WeakWall(h2)) => h1 == h2,
        (Tile::Box, Tile::Box) => true,
        (Tile::Outside, Tile::Outside) => true,
        (
            Tile::Sign { text: t1, width: w1, height: h1 },
            Tile::Sign { text: t2, width: w2, height: h2 },
        ) => t1@ == t2@ && w1 == w2 && h1 == h2,
        _ => false,
    }
}

impl Clone for Tile {
    fn clone(&self) -> (r: Self)
        ensures
            r == *self,
    {
        match self {
            Tile::Gate(m) => Tile::Gate(m.clone()),
            Tile::Wall => Tile::Wall,
            Tile::Ice => Tile::Ice,
            Tile::Stop => Tile::Stop,
            Tile::WeakWall(hits) => Tile::WeakWall(*hits),
            Tile::Box => Tile::Box,
            Tile::Outside => Tile::Outside,
            Tile::Sign { text, width, height } => Tile::Sign {
                text: text.clone(),
                width: *width,
                height: *height,
            },
        }
    }
}

impl PartialEq for Tile {
    fn eq(&self, other: &Self) -> (r: bool) {
        match (self, other) {
            (Tile::Gate(m1), Tile::Gate(m2)) => gate_meta_eq(m1, m2),
            (Tile::Wall, Tile::Wall) => true,
            (Tile::Ice, Tile::Ice) => true,
            (Tile::Stop, Tile::Stop) => true,
            (Tile::WeakWall(h1), Tile::WeakWall(h2)) => h1 == h2,
            (Tile::Box, Tile::Box) => true,
            (Tile::Outside, Tile::Outside) => true,
            (
                Tile::Sign { text: t1, width: w1, height: h1 },
                Tile::Sign { text: t2, width: w2, height: h2 },
            ) => *t1 == *t2 && w1 == w2 && h1 == h2,
            _ => false,
        }
    }
}

impl vstd::std_specs::cmp::PartialEqSpecImpl for Tile {
    open spec fn obeys_eq_spec() -> bool {
        true
    }

    open spec fn eq_spec(&self, other: &Self) -> bool {
        tile_eq(*self, *other)
    }
}

impl Cell for Tile {
    open spec fn spec_blank() -> Tile {
        Tile::Outside
    }

    fn blank() -> (r: Tile)
        ensures
            r == Tile::Outside,
    {
        Tile::Outside
    }

    fn duplicate(&self) -> (r: Tile)
        ensures
            r == *self,
    {
        self.clone()
    }
}

impl Default for Tile {
    fn default() -> (r: Tile)
        ensures
            r == Tile::Outside,
    {
        Tile::Outside
    }
}

impl LeftRotatable for Tile {
    /// Rotating a tile only swaps a sign's footprint; every other tile is
    /// isotropic.
    open spec fn spec_rotate_left(&self) -> Tile {
        match *self {
            Tile::Sign { text, width, height } => Tile::Sign { text, width: height, height: width },
            _ => *self,
        }
    }

    fn rotate_left(&self) -> (r: Tile)
        ensures
            r == self.spec_rotate_left(),
    {
        match self {
            Tile::Gate(metadata) => Tile::Gate(metadata.clone()),
            Tile::Wall => Tile::Wall,
            Tile::Ice => Tile::Ice,
            Tile::Stop => Tile::Stop,
            Tile::WeakWall(hits) => Tile::WeakWall(*hits),
            Tile::Outside => Tile::Outside,
            Tile::Box => Tile::Box,
            Tile::Sign { text, width, height } => Tile::Sign {
                text: text.clone(),
                width: *height,
                height: *width,
            },
        }
    }
}

impl Tile {
    pub open spec fn spec_symbol(&self) -> Seq<char> {
        match self {
            Tile::Gate(GateMetadata::EntryOnly) => "E"@,
            Tile::Gate(_) => "G"@,
            Tile::Wall => "#"@,
            Tile::Stop => "s"@,
            Tile::Ice => " "@,
            Tile::WeakWall(_) => "w"@,
            Tile::Outside => " "@,
            Tile::Box => "b"@,
            Tile::Sign { .. } => "S"@,
        }
    }

    /// One-character form used when printing a grid.
    pub fn symbol(&self) -> (r: &'static str)
        ensures
            r@ == self.spec_symbol(),
    {
        match self {
            Tile::Gate(GateMetadata::EntryOnly) => "E",
            Tile::Gate(_) => "G",
            Tile::Wall => "#",
            Tile::Stop => "s",
            Tile::Ice => " ",
            Tile::WeakWall(_) => "w",
            Tile::Outside => " ",
            Tile::Box => "b",
            Tile::Sign { .. } => "S",
        }
    }

    /// Whether a sliding actor comes to rest against this tile while the
    /// solver simulates a move. Exit gates do not stop the slide: the actor
    /// rides onto them and leaves the room.
    pub open spec fn spec_stops_player_during_sim(&self) -> bool {
        match self {
            Tile::Gate(GateMetadata::EntryOnly) => true,
            Tile::Gate(_) => false,
            Tile::Wall => true,
            Tile::Stop => false,
            Tile::Ice => false,
            Tile::WeakWall(_) => true,
            Tile::Outside => true,
            Tile::Box => true,
            Tile::Sign { .. } => false,
        }
    }

    pub fn stops_player_during_sim(&self) -> (r: bool)
        ensures
            r == self.spec_stops_player_during_sim(),
    {
        match self {
            Tile::Gate(GateMetadata::EntryOnly) => true,
            Tile::Gate(_) => false,
            Tile::Wall => true,
            Tile::Stop => false,
            Tile::Ice => false,
            Tile::WeakWall(_) => true,
            Tile::Outside => true,
            Tile::Box => true,
            Tile::Sign { .. } => false,
        }
    }

    /// Whether this tile blocks the actor in live play; a predicted move
    /// additionally treats exit gates as blocking.
    pub open spec fn spec_stops_player_during_gameplay(&self, predicting: bool) -> bool {
        match self {
            Tile::Gate(GateMetadata::EntryOnly) => true,
            Tile::Gate(_) => predicting,
            Tile::Wall => true,
            Tile::Stop => false,
            Tile::Ice => false,
            Tile::WeakWall(_) => false,
            Tile::Outside => true,
            Tile::Box => false,
            Tile::Sign { .. } => false,
        }
    }

    pub fn stops_player_during_gameplay(&self, predicting: bool) -> (r: bool)
        ensures
            r == self.spec_stops_player_during_gameplay(predicting),
    {
        match self {
            Tile::Gate(GateMetadata::EntryOnly) => true,
            Tile::Gate(_) => predicting,
            Tile::Wall => true,
            Tile::Stop => false,
            Tile::Ice => false,
            Tile::WeakWall(_) => false,
            Tile::Outside => true,
            Tile::Box => false,
            Tile::Sign { .. } => false,
        }
    }

    /// Whether the texturing pass treats this tile as part of a wall mass.
    pub open spec fn spec_is_a_wall_for_texturing(&self) -> bool {
        match self {
            Tile::Gate(GateMetadata::EntryOnly) => true,
            Tile::Gate(_) => false,
            Tile::Wall => true,
            Tile::Stop => false,
            Tile::Ice => false,
            Tile::WeakWall(_) => false,
            Tile::Outside => true,
            Tile::Box => false,
            Tile::Sign { .. } => false,
        }
    }

    pub fn is_a_wall_for_texturing(&self) -> (r: bool)
        ensures
            r == self.spec_is_a_wall_for_texturing(),
    {
        match self {
            Tile::Gate(GateMetadata::EntryOnly) => true,
            Tile::Gate(_) => false,
            Tile::Wall => true,
            Tile::Stop => false,
            Tile::Ice => false,
            Tile::WeakWall(_) => false,
            Tile::Outside => true,
            Tile::Box => false,
            Tile::Sign { .. } => false,
        }
    }

    /// Whether a pushed box comes to rest against this tile.
    pub open spec fn spec_stops_box_during_gameplay(&self) -> bool {
        match self {
            Tile::Gate(_) => true,
            Tile::Wall => true,
            Tile::Stop => false,
            Tile::Ice => false,
            Tile::WeakWall(_) => false,
            Tile::Outside => true,
            Tile::Box => false,
            Tile::Sign { .. } => false,
        }
    }

    pub fn stops_box_during_gameplay(&self) -> (r: bool)
        ensures
            r == self.spec_stops_box_during_gameplay(),
    {
        match self {
            Tile::Gate(_) => true,
            Tile::Wall => true,
            Tile::Stop => false,
            Tile::Ice => false,
            Tile::WeakWall(_) => false,
            Tile::Outside => true,
            Tile::Box => false,
            Tile::Sign { .. } => false,
        }
    }

    pub open spec fn spec_from_symbol(
        symbol: u8,
        gate_metadata: Map<u8, GateMetadata>,
        sign_metadata: Seq<(String, isize, isize)>,
    ) -> Tile {
        if symbol == 35 {
            Tile::Wall
        } else if symbol == 32 {
            Tile::Ice
        } else if symbol == 119 {
            Tile::WeakWall(1)
        } else if symbol == 98 {
            Tile::Box
        } else if symbol == 115 {
            Tile::Stop
        } else if symbol == 83 {
            Tile::Sign {
                text: sign_metadata[0].0,
                width: sign_metadata[0].1,
                height: sign_metadata[0].2,
            }
        } else if gate_metadata.contains_key(symbol) {
            Tile::Gate(gate_metadata[symbol])
        } else {
            Tile::Gate(GateMetadata::EntryOnly)
        }
    }

    /// Reads one tile of a serialized room. Unrecognized symbols are gate
    /// markers: their metadata is looked up by symbol, defaulting to an
    /// entry-only gate. A sign symbol consumes the next queued sign entry.
    pub fn from_symbol(
        symbol: u8,
        gate_metadata: &HashMap<u8, GateMetadata>,
        sign_metadata: &mut Vec<(String, isize, isize)>,
    ) -> (r: Tile)
        requires
            symbol == 83 ==> old(sign_metadata)@.len() >= 1,
        ensures
            r == Tile::spec_from_symbol(symbol, gate_metadata@, old(sign_metadata)@),
            symbol == 83 ==> final(sign_metadata)@ == old(sign_metadata)@.remove(0),
            symbol != 83 ==> final(sign_metadata)@ == old(sign_metadata)@,
    {
        match symbol {
            35u8 => Tile::Wall,
            32u8 => Tile::Ice,
            119u8 => Tile::WeakWall(1),
            98u8 => Tile::Box,
            115u8 => Tile::Stop,
            83u8 => {
                let metadata = sign_metadata.remove(0);
                Tile::Sign { text: metadata.0, width: metadata.1, height: metadata.2 }
            },
            e => {
                let metadata = match gate_metadata.get(&e) {
                    Option::Some(m) => Option::Some(m.clone()),
                    Option::None => Option::None,
                };
                Tile::Gate(metadata.unwrap_or(GateMetadata::EntryOnly))
            },
        }
    }
}

} // verus!

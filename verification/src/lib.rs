//! Procedural generator and verified solver for grid-based sliding-ice
//! puzzle rooms.
//!
//! A room is a rectangular grid of tiles. An actor entering through a gate
//! slides in a straight line until it rests against an obstacle; it may then
//! turn only perpendicular to its previous heading. Weak walls erode when
//! struck, boxes are pushed in cascades. The library builds random rooms,
//! proves them solvable with a bounded breadth-first search, scores them,
//! and keeps the best candidates in a bounded ranked set.

use vstd::prelude::*;

pub mod asset_map;
pub mod board;
pub mod board_description;
pub mod dart_board;
pub mod direction;
pub mod gate;
mod io;
pub mod matrix;
pub mod metadata;
pub mod neighbour;
pub mod noise_reduction;
pub mod pos;
pub mod ranked_set;
mod rng;
pub mod solver;
pub mod tile;
pub mod visitations;
pub mod worker_pool;

verus! {

/// A value that turns 90 degrees counterclockwise into another value of the
/// same type, in lockstep with a whole-grid rotation.
pub trait LeftRotatable: Sized {
    /// The rotated value, as a mathematical function.
    spec fn spec_rotate_left(&self) -> Self;

    fn rotate_left(&self) -> (r: Self)
        ensures
            r == self.spec_rotate_left(),
    ;
}

/// An element a grid can hold: it has a sentinel value for out-of-bounds
/// queries and can be copied without loss.
pub trait Cell: Sized {
    /// The sentinel handed back for any query outside the grid.
    spec fn spec_blank() -> Self;

    fn blank() -> (r: Self)
        ensures
            r == Self::spec_blank(),
    ;

    fn duplicate(&self) -> (r: Self)
        ensures
            r == *self,
    ;
}

} // verus!

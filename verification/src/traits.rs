//! Traits that make the tile systems generic. Implement these traits to use
//! your own coordinate or tile types with the map store and the pathfinder.

use vstd::prelude::*;

verus! {

/// Capability set that a coordinate system offers the map store and the
/// pathfinder: a mathematical adjacency relation, executable equality that
/// agrees with it, and neighbour enumeration.
pub trait TileCoords: Sized + Copy {
    /// Mathematical adjacency relation of the coordinate system: holds when
    /// `other` is one step away from `self`.
    spec fn adjacent_spec(self, other: Self) -> bool;

    /// Holds when the coordinate is far enough from the integer limits that
    /// all of its neighbours can be computed without overflow.
    spec fn expandable(self) -> bool;

    /// Executable equality test, agreeing with mathematical equality.
    fn coords_eq(&self, other: &Self) -> (r: bool)
        ensures
            r <==> *self == *other,
    ;

    /// Returns exactly the coordinates adjacent to `self`, each once: every
    /// returned coordinate is adjacent, every adjacent coordinate is
    /// returned, and none is repeated.
    fn adjacent_coords(&self) -> (r: Vec<Self>)
        requires
            self.expandable(),
        ensures
            forall|i: int| 0 <= i < r@.len() ==> self.adjacent_spec(#[trigger] r@[i]),
            forall|c: Self| self.adjacent_spec(c) ==> r@.contains(c),
            r@.no_duplicates(),
    ;
}

/// Tile data that can be stored in a tile map and used for pathfinding.
pub trait Tile: Sized {
    /// Mathematical traversal cost of the tile. Costs are non-negative;
    /// zero-cost tiles model free movement.
    spec fn spec_cost(self) -> nat;

    /// Returns the cost of moving onto this tile, as used by the pathfinder.
    fn pathfind_cost(&self) -> (c: u64)
        ensures
            c == self.spec_cost(),
    ;
}

} // verus!

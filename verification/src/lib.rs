//! Generic tile-map library for board-game-style maps: hexagonal and square
//! coordinate systems, a coordinate-to-tile store, and a minimum-cost
//! pathfinder over such a store.

pub mod traits;
pub mod map;
pub mod hex;
pub mod square;

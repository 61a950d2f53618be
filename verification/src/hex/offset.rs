//! Offset hex coordinates. Simple method for making pseudo-rectangular maps

use vstd::prelude::*;
use crate::traits::TileCoords;
use crate::hex::axial::AxialCoords;
use crate::hex::cube::CubeCoords;
use crate::hex::util::floor_half;

verus! {

/// A coordinate pair for an offset coordinate hex map
#[derive(Clone, Copy, Debug, PartialEq, Eq, Hash, Structural)]
pub struct OffsetCoords {
    /// Column
    pub q: isize,
    /// Row
    pub r: isize,
}

impl OffsetCoords {
    /// Far enough from the numeric limits for the coordinate math.
    pub open spec fn in_range(self) -> bool {
        &&& -((isize::MAX as int) / 8) <= self.q <= (isize::MAX as int) / 8
        &&& -((isize::MAX as int) / 8) <= self.r <= (isize::MAX as int) / 8
    }

    /// Create a new offset coordinate pair with the given Q and R coordinates
    pub fn new(q: isize, r: isize) -> (c: Self)
        ensures
            c == (OffsetCoords { q, r }),
    {
        Self { q, r }
    }

    /// Creates a new coordinate pair where both values are the given input
    /// value.
    pub fn splat(val: isize) -> (c: Self)
        ensures
            c == (OffsetCoords { q: val, r: val }),
    {
        Self::new(val, val)
    }

    /// Creates a new offset coordinate pair from the given axial coordinates:
    /// the column absorbs half the row.
    pub fn from_axial(c: AxialCoords) -> (r: Self)
        requires
            c.in_range(),
        ensures
            r.q == c.q + c.r / 2,
            r.r == c.r,
    {
        Self { q: c.q + floor_half(c.r), r: c.r }
    }

    /// Creates a new offset coordinate pair from the given cube coordinate
    /// set.
    pub fn from_cube(c: CubeCoords) -> (r: Self)
        requires
            -((isize::MAX as int) / 8) <= c.q <= (isize::MAX as int) / 8,
            -((isize::MAX as int) / 8) <= c.r <= (isize::MAX as int) / 8,
        ensures
            r.q == c.q + c.r / 2,
            r.r == c.r,
    {
        Self { q: c.q + floor_half(c.r), r: c.r }
    }
}

impl TileCoords for OffsetCoords {
    /// The six neighbouring cells of the offset layout's fixed row parity.
    open spec fn adjacent_spec(self, other: Self) -> bool {
        ||| (other.q == self.q - 1 && other.r == self.r - 1)
        ||| (other.q == self.q && other.r == self.r - 1)
        ||| (other.q == self.q + 1 && other.r == self.r)
        ||| (other.q == self.q && other.r == self.r + 1)
        ||| (other.q == self.q - 1 && other.r == self.r + 1)
        ||| (other.q == self.q - 1 && other.r == self.r)
    }

    open spec fn expandable(self) -> bool {
        &&& isize::MIN < self.q < isize::MAX
        &&& isize::MIN < self.r < isize::MAX
    }

    fn coords_eq(&self, other: &Self) -> (r: bool) {
        self.q == other.q && self.r == other.r
    }

    fn adjacent_coords(&self) -> (r: Vec<Self>) {
        let mut v: Vec<OffsetCoords> = Vec::new();
        v.push(OffsetCoords { q: self.q - 1, r: self.r - 1 });
        v.push(OffsetCoords { q: self.q, r: self.r - 1 });
        v.push(OffsetCoords { q: self.q + 1, r: self.r });
        v.push(OffsetCoords { q: self.q, r: self.r + 1 });
        v.push(OffsetCoords { q: self.q - 1, r: self.r + 1 });
        v.push(OffsetCoords { q: self.q - 1, r: self.r });
        proof {
            assert forall|c: OffsetCoords| self.adjacent_spec(c) implies v@.contains(c) by {
                if c.q == self.q - 1 && c.r == self.r - 1 {
                    assert(v@[0] == c);
                } else if c.q == self.q && c.r == self.r - 1 {
                    assert(v@[1] == c);
                } else if c.q == self.q + 1 && c.r == self.r {
                    assert(v@[2] == c);
                } else if c.q == self.q && c.r == self.r + 1 {
                    assert(v@[3] == c);
                } else if c.q == self.q - 1 && c.r == self.r + 1 {
                    assert(v@[4] == c);
                } else {
                    assert(v@[5] == c);
                }
            }
        }
        v
    }
}

} // verus!

//! Doubled hex coordinates. Method for making pseudo-rectangular maps that's
//! a bit more mathematically elegant than the
//! [Offset coordinate system](crate::hex::offset)

use vstd::prelude::*;
use crate::traits::TileCoords;
use crate::hex::axial::AxialCoords;
use crate::hex::cube::CubeCoords;
use crate::hex::offset::OffsetCoords;
use crate::hex::util::floor_half;

verus! {

/// A coordinate pair for a doubled coordinate hex map
#[derive(Clone, Copy, Debug, PartialEq, Eq, Hash, Structural)]
pub struct DoubledCoords {
    /// Column
    pub q: isize,
    /// Row
    pub r: isize,
}

impl DoubledCoords {
    /// Create a new doubled coordinate pair with the given Q and R
    /// coordinates
    pub fn new(q: isize, r: isize) -> (c: Self)
        ensures
            c == (DoubledCoords { q, r }),
    {
        Self { q, r }
    }

    /// Creates a new coordinate pair where both values are the given input
    /// value.
    pub fn splat(val: isize) -> (c: Self)
        ensures
            c == (DoubledCoords { q: val, r: val }),
    {
        Self::new(val, val)
    }

    /// Creates a new doubled coordinate pair from the given axial
    /// coordinates: the column counts in half steps.
    pub fn from_axial(c: AxialCoords) -> (r: Self)
        requires
            c.in_range(),
        ensures
            r.q == c.q * 2 + c.r,
            r.r == c.r,
    {
        Self { q: c.q * 2 + c.r, r: c.r }
    }

    /// Creates a new doubled coordinate pair from the given cube coordinate
    /// set.
    pub fn from_cube(c: CubeCoords) -> (r: Self)
        requires
            -((isize::MAX as int) / 8) <= c.q <= (isize::MAX as int) / 8,
            -((isize::MAX as int) / 8) <= c.r <= (isize::MAX as int) / 8,
        ensures
            r.q == c.q * 2 + c.r,
            r.r == c.r,
    {
        Self { q: c.q * 2 + c.r, r: c.r }
    }

    /// Creates a new doubled coordinate pair from the given offset
    /// coordinates.
    pub fn from_offset(c: OffsetCoords) -> (r: Self)
        requires
            c.in_range(),
        ensures
            r.q == (c.q - c.r / 2) * 2 + c.r,
            r.r == c.r,
    {
        let a = AxialCoords::from_offset(c);
        Self { q: a.q * 2 + a.r, r: a.r }
    }
}

impl TileCoords for DoubledCoords {
    /// The six neighbouring cells of the doubled layout; east and west are
    /// two columns over.
    open spec fn adjacent_spec(self, other: Self) -> bool {
        ||| (other.q == self.q - 1 && other.r == self.r - 1)
        ||| (other.q == self.q + 1 && other.r == self.r - 1)
        ||| (other.q == self.q + 2 && other.r == self.r)
        ||| (other.q == self.q + 1 && other.r == self.r + 1)
        ||| (other.q == self.q - 1 && other.r == self.r + 1)
        ||| (other.q == self.q - 2 && other.r == self.r)
    }

    open spec fn expandable(self) -> bool {
        &&& isize::MIN + 1 < self.q < isize::MAX - 1
        &&& isize::MIN < self.r < isize::MAX
    }

    fn coords_eq(&self, other: &Self) -> (r: bool) {
        self.q == other.q && self.r == other.r
    }

    fn adjacent_coords(&self) -> (r: Vec<Self>) {
        let mut v: Vec<DoubledCoords> = Vec::new();
        v.push(DoubledCoords { q: self.q - 1, r: self.r - 1 });
        v.push(DoubledCoords { q: self.q + 1, r: self.r - 1 });
        v.push(DoubledCoords { q: self.q + 2, r: self.r });
        v.push(DoubledCoords { q: self.q + 1, r: self.r + 1 });
        v.push(DoubledCoords { q: self.q - 1, r: self.r + 1 });
        v.push(DoubledCoords { q: self.q - 2, r: self.r });
        proof {
            assert forall|c: DoubledCoords| self.adjacent_spec(c) implies v@.contains(c) by {
                if c.q == self.q - 1 && c.r == self.r - 1 {
                    assert(v@[0] == c);
                } else if c.q == self.q + 1 && c.r == self.r - 1 {
                    assert(v@[1] == c);
                } else if c.q == self.q + 2 && c.r == self.r {
                    assert(v@[2] == c);
                } else if c.q == self.q + 1 && c.r == self.r + 1 {
                    assert(v@[3] == c);
                } else if c.q == self.q - 1 && c.r == self.r + 1 {
                    assert(v@[4] == c);
                } else {
                    assert(v@[5] == c);
                }
            }
        }
        v
    }
}

} // verus!

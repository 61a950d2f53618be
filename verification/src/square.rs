//! Pre-made types for square grid coordinate systems

use vstd::prelude::*;
use crate::traits::TileCoords;

verus! {

/// Basic square coordinates. Each tile has equal width and height, is
/// uniformly spaced, and has 4 side neighbors and 8 corner neighbors
/// (including the side neighbors)
#[derive(Clone, Copy, Debug, PartialEq, Eq, Hash, Structural)]
pub struct SquareCoords {
    pub x: isize,
    pub y: isize,
}

impl SquareCoords {
    /// Create a new square coordinate pair with the given X and Y coordinates
    pub fn new(x: isize, y: isize) -> (c: Self)
        ensures
            c == (SquareCoords { x, y }),
    {
        Self { x, y }
    }
}

impl TileCoords for SquareCoords {
    /// The eight surrounding cells, corners included.
    open spec fn adjacent_spec(self, other: Self) -> bool {
        ||| (other.x == self.x - 1 && other.y == self.y - 1)
        ||| (other.x == self.x - 1 && other.y == self.y)
        ||| (other.x == self.x - 1 && other.y == self.y + 1)
        ||| (other.x == self.x && other.y == self.y - 1)
        ||| (other.x == self.x && other.y == self.y + 1)
        ||| (other.x == self.x + 1 && other.y == self.y - 1)
        ||| (other.x == self.x + 1 && other.y == self.y)
        ||| (other.x == self.x + 1 && other.y == self.y + 1)
    }

    open spec fn expandable(self) -> bool {
        &&& isize::MIN < self.x < isize::MAX
        &&& isize::MIN < self.y < isize::MAX
    }

    fn coords_eq(&self, other: &Self) -> (r: bool) {
        self.x == other.x && self.y == other.y
    }

    fn adjacent_coords(&self) -> (r: Vec<Self>) {
        let mut v: Vec<SquareCoords> = Vec::new();
        v.push(SquareCoords { x: self.x - 1, y: self.y - 1 });
        v.push(SquareCoords { x: self.x - 1, y: self.y });
        v.push(SquareCoords { x: self.x - 1, y: self.y + 1 });
        v.push(SquareCoords { x: self.x, y: self.y - 1 });
        v.push(SquareCoords { x: self.x, y: self.y + 1 });
        v.push(SquareCoords { x: self.x + 1, y: self.y - 1 });
        v.push(SquareCoords { x: self.x + 1, y: self.y });
        v.push(SquareCoords { x: self.x + 1, y: self.y + 1 });
        proof {
            assert forall|c: SquareCoords| self.adjacent_spec(c) implies v@.contains(c) by {
                if c.x == self.x - 1 && c.y == self.y - 1 {
                    assert(v@[0] == c);
                } else if c.x == self.x - 1 && c.y == self.y {
                    assert(v@[1] == c);
                } else if c.x == self.x - 1 && c.y == self.y + 1 {
                    assert(v@[2] == c);
                } else if c.x == self.x && c.y == self.y - 1 {
                    assert(v@[3] == c);
                } else if c.x == self.x && c.y == self.y + 1 {
                    assert(v@[4] == c);
                } else if c.x == self.x + 1 && c.y == self.y - 1 {
                    assert(v@[5] == c);
                } else if c.x == self.x + 1 && c.y == self.y {
                    assert(v@[6] == c);
                } else {
                    assert(v@[7] == c);
                }
            }
        }
        v
    }
}

} // verus!

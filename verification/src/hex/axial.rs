//! Axial hex coordinates. More space efficient than cube but math is a bit of
//! a pain.

use vstd::prelude::*;
use vstd::math::abs;
use crate::traits::TileCoords;
use crate::hex::cube::CubeCoords;
use crate::hex::cube::cube_distance;
use crate::hex::offset::OffsetCoords;
use crate::hex::util::floor_half;

verus! {

/// Tile distance between two axial coordinate pairs: the number of jumps
/// across adjacent tiles needed to get from one to the other.
pub open spec fn axial_distance(a: AxialCoords, b: AxialCoords) -> int {
    (abs(a.q - b.q) + abs(a.r - b.r) + abs((a.q - b.q) + (a.r - b.r))) as int / 2
}

/// The tile a ring walk reaches at position `k`: rings are built six sides at
/// a time, side `k % 6`, step `k / 6` along that side.
spec fn ring_point_ok(c: AxialCoords, radius: int, k: int, p: AxialCoords) -> bool {
    let i = k / 6;
    let s = k % 6;
    if s == 0 {
        p.q == c.q + radius && p.r == c.r - radius + i
    } else if s == 1 {
        p.q == c.q + radius - i && p.r == c.r + i
    } else if s == 2 {
        p.q == c.q - i && p.r == c.r + radius
    } else if s == 3 {
        p.q == c.q - radius && p.r == c.r + radius - i
    } else if s == 4 {
        p.q == c.q - radius + i && p.r == c.r - i
    } else {
        p.q == c.q + i && p.r == c.r - radius
    }
}

/// Position arithmetic for the six-sided ring walk.
proof fn lemma_ring_index(i: int, s: int)
    requires
        0 <= i,
        0 <= s < 6,
    ensures
        (6 * i + s) / 6 == i,
        (6 * i + s) % 6 == s,
{
    vstd::arithmetic::div_mod::lemma_fundamental_div_mod_converse_div(6 * i + s, 6, i, s);
    vstd::arithmetic::div_mod::lemma_fundamental_div_mod_converse_mod(6 * i + s, 6, i, s);
}

/// Different positions of the ring walk land on different tiles: the six
/// sides cover disjoint regions and each side is injective in its step.
proof fn lemma_ring_points_distinct(
    c: AxialCoords,
    rr: int,
    k1: int,
    k2: int,
    p1: AxialCoords,
    p2: AxialCoords,
)
    requires
        1 <= rr,
        0 <= k1 < 6 * rr,
        0 <= k2 < 6 * rr,
        k1 != k2,
        ring_point_ok(c, rr, k1, p1),
        ring_point_ok(c, rr, k2, p2),
    ensures
        p1 != p2,
{
    vstd::arithmetic::div_mod::lemma_fundamental_div_mod(k1, 6);
    vstd::arithmetic::div_mod::lemma_mod_bound(k1, 6);
    vstd::arithmetic::div_mod::lemma_fundamental_div_mod(k2, 6);
    vstd::arithmetic::div_mod::lemma_mod_bound(k2, 6);
    let i1 = k1 / 6;
    let i2 = k2 / 6;
    assert(0 <= i1 < rr && 0 <= i2 < rr) by {
        assert(6 * i1 == k1 - k1 % 6);
        assert(6 * i2 == k2 - k2 % 6);
    }
    if p1 == p2 {
        assert(false);
    }
}

/// Axial coordinate system for hexagonal tiles. Space efficient and works
/// well for hexagonal maps
#[derive(Clone, Copy, Debug, PartialEq, Eq, Hash, Structural)]
pub struct AxialCoords {
    pub q: isize,
    pub r: isize,
}

impl AxialCoords {
    /// Far enough from the numeric limits for the coordinate math.
    pub open spec fn in_range(self) -> bool {
        &&& -((isize::MAX as int) / 8) <= self.q <= (isize::MAX as int) / 8
        &&& -((isize::MAX as int) / 8) <= self.r <= (isize::MAX as int) / 8
    }

    /// Creates a new axial coordinate pair from the given cube coordinate
    /// set, dropping the component that cube coordinates make explicit.
    pub fn from_cube(c: CubeCoords) -> (r: Self)
        ensures
            r.q == c.q,
            r.r == c.r,
    {
        Self { q: c.q, r: c.r }
    }

    /// Creates a new axial coordinate pair from the given set of offset
    /// coordinates: the column gives back half the row.
    pub fn from_offset(c: OffsetCoords) -> (r: Self)
        requires
            c.in_range(),
        ensures
            r.q == c.q - c.r / 2,
            r.r == c.r,
    {
        Self { q: c.q - floor_half(c.r), r: c.r }
    }

    /// Create a new axial coordinate pair with the given Q and R coordinates
    pub fn new(q: isize, r: isize) -> (c: Self)
        ensures
            c == (AxialCoords { q, r }),
    {
        Self { q, r }
    }

    /// Creates a new coordinate pair where both values are the given input
    /// value.
    pub fn splat(val: isize) -> (c: Self)
        ensures
            c == (AxialCoords { q: val, r: val }),
    {
        Self::new(val, val)
    }

    /// Tile distance between `self` and the given coordinates.
    pub fn distance(&self, other: &Self) -> (d: isize)
        requires
            self.in_range(),
            other.in_range(),
        ensures
            d == axial_distance(*self, *other),
            0 <= d,
    {
        let ca = CubeCoords::from_axial(*self);
        let cb = CubeCoords::from_axial(*other);
        proof {
            assert(cube_distance(ca, cb) == axial_distance(*self, *other));
        }
        ca.distance(&cb)
    }

    /// Returns a set of coordinates that form a straight line of adjacent
    /// tiles from `self` to `other`.
    #[verifier::loop_isolation(false)]
    pub fn line_to(&self, other: &Self) -> (line: Vec<AxialCoords>)
        requires
            self.in_range(),
            other.in_range(),
        ensures
            line@.len() == axial_distance(*self, *other) + 1,
            line@[0] == *self,
            line@.last() == *other,
            forall|i: int|
                0 <= i < line@.len() - 1 ==> axial_distance(#[trigger] line@[i], line@[i + 1])
                    == 1,
    {
        let ca = CubeCoords::from_axial(*self);
        let cb = CubeCoords::from_axial(*other);
        proof {
            assert(cube_distance(ca, cb) == axial_distance(*self, *other));
        }
        let cube_line = ca.line_to(&cb);
        let mut line: Vec<AxialCoords> = Vec::new();
        let n = cube_line.len();
        let mut i: usize = 0;
        while i < n
            invariant
                i <= n,
                line@.len() == i,
                forall|k: int|
                    0 <= k < i ==> #[trigger] line@[k] == (AxialCoords {
                        q: cube_line@[k].q,
                        r: cube_line@[k].r,
                    }),
            decreases n - i,
        {
            let c = cube_line[i];
            line.push(AxialCoords { q: c.q, r: c.r });
            i = i + 1;
        }
        proof {
            assert(line@[0] == *self);
            assert(line@.last() == *other);
            // Consecutive cube samples are one step apart, and dropping the
            // redundant third component keeps that distance.
            assert forall|i: int| 0 <= i < line@.len() - 1 implies axial_distance(
                #[trigger] line@[i],
                line@[i + 1],
            ) == 1 by {
                assert(cube_distance(cube_line@[i], cube_line@[i + 1]) == 1);
                assert(cube_line@[i].spec_valid() && cube_line@[i + 1].spec_valid());
                assert(line@[i].q == cube_line@[i].q && line@[i].r == cube_line@[i].r);
                assert(line@[i + 1].q == cube_line@[i + 1].q && line@[i + 1].r == cube_line@[i
                    + 1].r);
            }
        }
        line
    }

    /// Returns a set of coordinates that form a ring of tiles a given
    /// distance from `self`: exactly the tiles at that distance, built as six
    /// runs of `radius` tiles, one per side.
    #[verifier::loop_isolation(false)]
    pub fn ring_tiles(&self, radius: isize) -> (ring: Vec<AxialCoords>)
        requires
            self.in_range(),
            radius <= (isize::MAX as int) / 8,
        ensures
            radius < 0 ==> ring@.len() == 0,
            radius == 0 ==> ring@ == seq![*self],
            radius > 0 ==> ring@.len() == 6 * radius,
            radius >= 0 ==> forall|i: int|
                0 <= i < ring@.len() ==> axial_distance(*self, #[trigger] ring@[i]) == radius,
            radius >= 0 ==> forall|c: AxialCoords|
                axial_distance(*self, c) == radius ==> ring@.contains(c),
            ring@.no_duplicates(),
    {
        if radius == 0 {
            let mut ring: Vec<AxialCoords> = Vec::new();
            ring.push(AxialCoords { q: self.q, r: self.r });
            proof {
                assert(ring@ =~= seq![*self]);
                assert forall|c: AxialCoords| axial_distance(*self, c) == 0 implies ring@.contains(
                    c,
                ) by {
                    assert(abs(c.q - self.q) + abs(c.r - self.r) + abs(
                        (c.q - self.q) + (c.r - self.r)) < 2);
                    assert(c == *self);
                    assert(ring@[0] == c);
                }
            }
            return ring;
        } else if radius < 0 {
            let ring: Vec<AxialCoords> = Vec::new();
            return ring;
        }
        let mut ring: Vec<AxialCoords> = Vec::new();
        let mut i: isize = 0;
        while i < radius
            invariant
                0 <= i <= radius,
                ring@.len() == 6 * i,
                forall|k: int|
                    0 <= k < ring@.len() ==> axial_distance(*self, #[trigger] ring@[k]) == radius,
                forall|k: int|
                    0 <= k < ring@.len() ==> ring_point_ok(
                        *self,
                        radius as int,
                        k,
                        #[trigger] ring@[k],
                    ),
            decreases radius - i,
        {
            ring.push(AxialCoords { q: self.q + radius, r: self.r - radius + i });
            ring.push(AxialCoords { q: self.q + radius - i, r: self.r + i });
            ring.push(AxialCoords { q: self.q - i, r: self.r + radius });
            ring.push(AxialCoords { q: self.q - radius, r: self.r + radius - i });
            ring.push(AxialCoords { q: self.q - radius + i, r: self.r - i });
            ring.push(AxialCoords { q: self.q + i, r: self.r - radius });
            proof {
                lemma_ring_index(i as int, 0);
                lemma_ring_index(i as int, 1);
                lemma_ring_index(i as int, 2);
                lemma_ring_index(i as int, 3);
                lemma_ring_index(i as int, 4);
                lemma_ring_index(i as int, 5);
            }
            i = i + 1;
        }
        proof {
            assert forall|c: AxialCoords| axial_distance(*self, c) == radius implies ring@.contains(
                c,
            ) by {
                let rr = radius as int;
                let dq = c.q - self.q;
                let dr = c.r - self.r;
                let e = dq + dr;
                // The component distances total twice the radius, and the
                // largest of them is the radius itself.
                assert(abs(dq) + abs(dr) + abs(e) == 2 * rr);
                assert(abs(dq) <= rr && abs(dr) <= rr && abs(e) <= rr);
                let (ii, s): (int, int) = if dq == rr && -rr <= dr <= -1 {
                    (rr + dr, 0)
                } else if e == rr && 0 <= dr <= rr - 1 {
                    (dr, 1)
                } else if dr == rr && -(rr - 1) <= dq <= 0 {
                    (-dq, 2)
                } else if dq == -rr && 1 <= dr <= rr {
                    (rr - dr, 3)
                } else if e == -rr && -(rr - 1) <= dr <= 0 {
                    (-dr, 4)
                } else {
                    assert(dr == -rr && 0 <= dq <= rr - 1);
                    (dq, 5)
                };
                let k = 6 * ii + s;
                lemma_ring_index(ii, s);
                assert(0 <= k < 6 * rr);
                assert(ring_point_ok(*self, rr, k, ring@[k]));
                assert(ring@[k].q == c.q && ring@[k].r == c.r);
                assert(ring@[k] == c);
            }
            assert forall|a: int, b: int|
                0 <= a < ring@.len() && 0 <= b < ring@.len() && a != b implies ring@[a]
                != ring@[b] by {
                lemma_ring_points_distinct(*self, radius as int, a, b, ring@[a], ring@[b]);
            }
        }
        ring
    }

    /// Returns a set of coordinates that form a filled area of tiles: exactly
    /// the tiles within the given distance of `self`, each once.
    #[verifier::loop_isolation(false)]
    pub fn area_tiles(&self, radius: isize) -> (area: Vec<AxialCoords>)
        requires
            self.in_range(),
            radius <= (isize::MAX as int) / 8,
        ensures
            radius < 0 ==> area@.len() == 0,
            radius >= 0 ==> area@.len() == 3 * radius * radius + 3 * radius + 1,
            forall|i: int|
                0 <= i < area@.len() ==> axial_distance(*self, #[trigger] area@[i]) <= radius,
            forall|c: AxialCoords| 0 <= axial_distance(*self, c) <= radius ==> area@.contains(c),
            area@.no_duplicates(),
    {
        let mut area: Vec<AxialCoords> = Vec::new();
        if radius < 0 {
            return area;
        }
        let mut n: isize = 0;
        while n <= radius
            invariant
                0 <= n <= radius + 1,
                n == 0 ==> area@.len() == 0,
                n >= 1 ==> area@.len() == 1 + 3 * (n - 1) * n,
                forall|i: int|
                    0 <= i < area@.len() ==> axial_distance(*self, #[trigger] area@[i]) <= n - 1,
                forall|c: AxialCoords|
                    0 <= axial_distance(*self, c) <= n - 1 ==> area@.contains(c),
                area@.no_duplicates(),
            decreases radius + 1 - n,
        {
            let ghost area0 = area@;
            let mut ring = self.ring_tiles(n);
            let ghost ring0 = ring@;
            area.append(&mut ring);
            proof {
                assert(area@ == area0 + ring0);
                assert forall|c: AxialCoords| 0 <= axial_distance(*self, c) <= n implies
                    area@.contains(c) by {
                    if axial_distance(*self, c) <= n - 1 {
                        assert(area0.contains(c));
                        let j = choose|j: int| 0 <= j < area0.len() && area0[j] == c;
                        assert(area@[j] == area0[j]);
                        assert(area@.contains(c));
                    } else {
                        assert(axial_distance(*self, c) == n);
                        assert(ring0.contains(c));
                        let j = choose|j: int| 0 <= j < ring0.len() && ring0[j] == c;
                        assert(area@[area0.len() + j] == ring0[j]);
                        assert(area@.contains(c));
                    }
                }
                // Earlier rings sit strictly closer than the new one, so the
                // concatenation stays free of repeats.
                assert forall|i: int, j: int|
                    0 <= i < area0.len() && 0 <= j < ring0.len() implies area0[i] != ring0[j] by {
                    assert(axial_distance(*self, area0[i]) <= n - 1);
                    assert(axial_distance(*self, ring0[j]) == n);
                }
                vstd::seq_lib::lemma_no_dup_in_concat(area0, ring0);
                if n >= 1 {
                    assert(area@.len() == 1 + 3 * (n - 1) * n + 6 * n);
                    assert(1 + 3 * (n - 1) * n + 6 * n == 1 + 3 * n * (n + 1))
                        by (nonlinear_arith)
                    {}
                }
            }
            n = n + 1;
        }
        proof {
            assert(area@.len() == 1 + 3 * radius * (radius + 1));
            assert(1 + 3 * (radius as int) * (radius as int + 1) == 3 * (radius as int) * (
            radius as int) + 3 * radius + 1) by (nonlinear_arith)
            {}
        }
        area
    }
}

impl TileCoords for AxialCoords {
    /// The six surrounding hexes of the axial system.
    open spec fn adjacent_spec(self, other: Self) -> bool {
        ||| (other.q == self.q + 1 && other.r == self.r)
        ||| (other.q == self.q && other.r == self.r + 1)
        ||| (other.q == self.q - 1 && other.r == self.r + 1)
        ||| (other.q == self.q - 1 && other.r == self.r)
        ||| (other.q == self.q && other.r == self.r - 1)
        ||| (other.q == self.q + 1 && other.r == self.r - 1)
    }

    open spec fn expandable(self) -> bool {
        &&& isize::MIN < self.q < isize::MAX
        &&& isize::MIN < self.r < isize::MAX
    }

    fn coords_eq(&self, other: &Self) -> (r: bool) {
        self.q == other.q && self.r == other.r
    }

    fn adjacent_coords(&self) -> (r: Vec<Self>) {
        let mut v: Vec<AxialCoords> = Vec::new();
        v.push(AxialCoords { q: self.q + 1, r: self.r });
        v.push(AxialCoords { q: self.q, r: self.r + 1 });
        v.push(AxialCoords { q: self.q - 1, r: self.r + 1 });
        v.push(AxialCoords { q: self.q - 1, r: self.r });
        v.push(AxialCoords { q: self.q, r: self.r - 1 });
        v.push(AxialCoords { q: self.q + 1, r: self.r - 1 });
        proof {
            assert forall|c: AxialCoords| self.adjacent_spec(c) implies v@.contains(c) by {
                if c.q == self.q + 1 && c.r == self.r {
                    assert(v@[0] == c);
                } else if c.q == self.q && c.r == self.r + 1 {
                    assert(v@[1] == c);
                } else if c.q == self.q - 1 && c.r == self.r + 1 {
                    assert(v@[2] == c);
                } else if c.q == self.q - 1 && c.r == self.r {
                    assert(v@[3] == c);
                } else if c.q == self.q && c.r == self.r - 1 {
                    assert(v@[4] == c);
                } else {
                    assert(v@[5] == c);
                }
            }
        }
        v
    }
}

} // verus!

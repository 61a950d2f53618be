//! Cube coordinates. Has simpler math than axial coords, but takes up more
//! space.

use vstd::prelude::*;
use vstd::math::abs;
use vstd::arithmetic::div_mod::{lemma_fundamental_div_mod, lemma_mod_bound};
use crate::traits::TileCoords;
use crate::hex::axial::AxialCoords;
use crate::hex::offset::OffsetCoords;

verus! {

/// Cube coordinate set
#[derive(Clone, Copy, Debug, PartialEq, Eq, Hash, Structural)]
pub struct CubeCoords {
    pub q: isize,
    pub r: isize,
    pub s: isize,
}

/// Tile distance between two cube coordinate sets: half the sum of the
/// component distances.
pub open spec fn cube_distance(a: CubeCoords, b: CubeCoords) -> int {
    (abs(a.q - b.q) + abs(a.r - b.r) + abs(a.s - b.s)) as int / 2
}

impl CubeCoords {
    /// A cube coordinate set is consistent when its three components cancel
    /// out.
    pub open spec fn spec_valid(self) -> bool {
        self.q + self.r + self.s == 0
    }

    /// Far enough from the numeric limits for the coordinate math.
    pub open spec fn in_range(self) -> bool {
        &&& -((isize::MAX as int) / 4) <= self.q <= (isize::MAX as int) / 4
        &&& -((isize::MAX as int) / 4) <= self.r <= (isize::MAX as int) / 4
        &&& -((isize::MAX as int) / 4) <= self.s <= (isize::MAX as int) / 4
    }

    /// Initialize a new cube coordinate set with the given coordinates
    pub fn new(q: isize, r: isize, s: isize) -> (c: Self)
        ensures
            c == (CubeCoords { q, r, s }),
    {
        Self { q, r, s }
    }

    /// Initializes a new `CubeCoords` instance with all coordinates set to
    /// the given value
    pub fn splat(val: isize) -> (c: Self)
        ensures
            c == (CubeCoords { q: val, r: val, s: val }),
    {
        Self { q: val, r: val, s: val }
    }

    /// Whether the three components cancel out, as any cube coordinate set
    /// describing a real hex must.
    pub fn is_valid(&self) -> (r: bool)
        ensures
            r == self.spec_valid(),
    {
        (self.s as i128) == -(self.q as i128) - (self.r as i128)
    }

    /// Tile distance between `self` and the given coordinates.
    pub fn distance(&self, other: &Self) -> (d: isize)
        requires
            self.in_range(),
            other.in_range(),
        ensures
            d == cube_distance(*self, *other),
            0 <= d,
    {
        let dq = (self.q as i128) - (other.q as i128);
        let dr = (self.r as i128) - (other.r as i128);
        let ds = (self.s as i128) - (other.s as i128);
        let aq = if dq < 0 { -dq } else { dq };
        let ar = if dr < 0 { -dr } else { dr };
        let as_ = if ds < 0 { -ds } else { ds };
        ((aq + ar + as_) / 2) as isize
    }

    /// Componentwise difference of two cube coordinate sets.
    pub fn sub(&self, rhs: &Self) -> (d: Self)
        requires
            isize::MIN <= self.q - rhs.q <= isize::MAX,
            isize::MIN <= self.r - rhs.r <= isize::MAX,
            isize::MIN <= self.s - rhs.s <= isize::MAX,
        ensures
            d.q == self.q - rhs.q,
            d.r == self.r - rhs.r,
            d.s == self.s - rhs.s,
    {
        Self { q: self.q - rhs.q, r: self.r - rhs.r, s: self.s - rhs.s }
    }

    /// Creates a new cube coordinate set from the given axial coordinates,
    /// completing the component that axial coordinates leave implicit.
    pub fn from_axial(c: AxialCoords) -> (r: Self)
        requires
            c.in_range(),
        ensures
            r.q == c.q,
            r.r == c.r,
            r.s == -c.q - c.r,
            r.spec_valid(),
            r.in_range(),
    {
        Self { q: c.q, r: c.r, s: -c.q - c.r }
    }

    /// Creates a new cube coordinate set from the given offset coordinates.
    pub fn from_offset(c: OffsetCoords) -> (r: Self)
        requires
            c.in_range(),
        ensures
            r.q == c.q - c.r / 2,
            r.r == c.r,
            r.s == -r.q - r.r,
            r.spec_valid(),
    {
        let a = AxialCoords::from_offset(c);
        Self { q: a.q, r: a.r, s: -a.q - a.r }
    }
}

impl TileCoords for CubeCoords {
    /// The six surrounding hexes of the cube system.
    open spec fn adjacent_spec(self, other: Self) -> bool {
        ||| (other.q == self.q + 1 && other.r == self.r - 1 && other.s == self.s)
        ||| (other.q == self.q + 1 && other.r == self.r && other.s == self.s - 1)
        ||| (other.q == self.q && other.r == self.r + 1 && other.s == self.s - 1)
        ||| (other.q == self.q - 1 && other.r == self.r + 1 && other.s == self.s)
        ||| (other.q == self.q - 1 && other.r == self.r && other.s == self.s + 1)
        ||| (other.q == self.q && other.r == self.r - 1 && other.s == self.s + 1)
    }

    open spec fn expandable(self) -> bool {
        &&& isize::MIN < self.q < isize::MAX
        &&& isize::MIN < self.r < isize::MAX
        &&& isize::MIN < self.s < isize::MAX
    }

    fn coords_eq(&self, other: &Self) -> (r: bool) {
        self.q == other.q && self.r == other.r && self.s == other.s
    }

    fn adjacent_coords(&self) -> (r: Vec<Self>) {
        let mut v: Vec<CubeCoords> = Vec::new();
        v.push(CubeCoords { q: self.q + 1, r: self.r - 1, s: self.s });
        v.push(CubeCoords { q: self.q + 1, r: self.r, s: self.s - 1 });
        v.push(CubeCoords { q: self.q, r: self.r + 1, s: self.s - 1 });
        v.push(CubeCoords { q: self.q - 1, r: self.r + 1, s: self.s });
        v.push(CubeCoords { q: self.q - 1, r: self.r, s: self.s + 1 });
        v.push(CubeCoords { q: self.q, r: self.r - 1, s: self.s + 1 });
        proof {
            assert forall|c: CubeCoords| self.adjacent_spec(c) implies v@.contains(c) by {
                if c.q == self.q + 1 && c.r == self.r - 1 && c.s == self.s {
                    assert(v@[0] == c);
                } else if c.q == self.q + 1 && c.r == self.r && c.s == self.s - 1 {
                    assert(v@[1] == c);
                } else if c.q == self.q && c.r == self.r + 1 && c.s == self.s - 1 {
                    assert(v@[2] == c);
                } else if c.q == self.q - 1 && c.r == self.r + 1 && c.s == self.s {
                    assert(v@[3] == c);
                } else if c.q == self.q - 1 && c.r == self.r && c.s == self.s + 1 {
                    assert(v@[4] == c);
                } else {
                    assert(v@[5] == c);
                }
            }
        }
        v
    }
}

/// One coordinate of a line sample is sound: the stored value is within half
/// a step of the exact interpolation between `x0` and `x1`, scaled by the
/// distance `d`, and reproduces it exactly when the coordinate spans the
/// whole distance.
pub open spec fn sample_coord_ok(x0: int, x1: int, d: int, k: int, v: int) -> bool {
    let nx = x0 * (d - k) + x1 * k;
    &&& -d <= 2 * (v * d - nx) <= d
    &&& (x1 - x0 == d || x0 - x1 == d) ==> v * d == nx
}

/// All three coordinates of the `k`th line sample lie on the rounded
/// straight segment from `a` to `b`.
pub open spec fn sample_ok(a: CubeCoords, b: CubeCoords, d: int, k: int, p: CubeCoords) -> bool {
    &&& sample_coord_ok(a.q as int, b.q as int, d, k, p.q as int)
    &&& sample_coord_ok(a.r as int, b.r as int, d, k, p.r as int)
    &&& sample_coord_ok(a.s as int, b.s as int, d, k, p.s as int)
}

/// Between consistent coordinate sets, some component spans the whole tile
/// distance and none exceeds it.
proof fn lemma_some_coord_spans(a: CubeCoords, b: CubeCoords, d: int)
    requires
        a.spec_valid(),
        b.spec_valid(),
        d == cube_distance(a, b),
        1 <= d,
    ensures
        abs(b.q - a.q) == d || abs(b.r - a.r) == d || abs(b.s - a.s) == d,
        abs(b.q - a.q) <= d && abs(b.r - a.r) <= d && abs(b.s - a.s) <= d,
{
    let sq = abs(b.q - a.q) as int;
    let sr = abs(b.r - a.r) as int;
    let ss = abs(b.s - a.s) as int;
    assert((b.q - a.q) + (b.r - a.r) + (b.s - a.s) == 0);
    // The components cancel, so their distances total twice the largest.
    assert(sq + sr + ss == 2 * sq || sq + sr + ss == 2 * sr || sq + sr + ss == 2 * ss);
    assert(d == (sq + sr + ss) / 2);
    if sq + sr + ss == 2 * sq {
        assert(d == sq);
    } else if sq + sr + ss == 2 * sr {
        assert(d == sr);
    } else {
        assert(d == ss);
    }
}

/// A coordinate that spans the whole distance interpolates to exact
/// multiples of the distance, so rounding reproduces it.
proof fn lemma_exact_coord(x0: int, x1: int, d: int, k: int, v: int)
    requires
        1 <= d,
        x1 - x0 == d || x0 - x1 == d,
        -d <= 2 * ((x0 * (d - k) + x1 * k) - v * d) <= d,
    ensures
        v * d == x0 * (d - k) + x1 * k,
{
    let nx = x0 * (d - k) + x1 * k;
    if x1 - x0 == d {
        assert(nx == (x0 + k) * d) by (nonlinear_arith)
            requires
                x1 - x0 == d,
                nx == x0 * (d - k) + x1 * k,
        {}
        assert(v == x0 + k) by (nonlinear_arith)
            requires
                nx == (x0 + k) * d,
                -d <= 2 * (nx - v * d) <= d,
                1 <= d,
        {}
        assert(v * d == nx) by (nonlinear_arith)
            requires
                v == x0 + k,
                nx == (x0 + k) * d,
        {}
    } else {
        assert(nx == (x0 - k) * d) by (nonlinear_arith)
            requires
                x0 - x1 == d,
                nx == x0 * (d - k) + x1 * k,
        {}
        assert(v == x0 - k) by (nonlinear_arith)
            requires
                nx == (x0 - k) * d,
                -d <= 2 * (nx - v * d) <= d,
                1 <= d,
        {}
        assert(v * d == nx) by (nonlinear_arith)
            requires
                v == x0 - k,
                nx == (x0 - k) * d,
        {}
    }
}

/// Between consecutive samples one coordinate moves by at most one step, and
/// a coordinate that spans the whole distance moves by exactly one.
proof fn lemma_coord_step(x0: int, x1: int, d: int, k: int, v1: int, v2: int)
    requires
        1 <= d,
        -d <= x1 - x0 <= d,
        sample_coord_ok(x0, x1, d, k, v1),
        sample_coord_ok(x0, x1, d, k + 1, v2),
    ensures
        -1 <= v2 - v1 <= 1,
        x1 - x0 == d ==> v2 - v1 == 1,
        x0 - x1 == d ==> v2 - v1 == -1,
{
    let nx1 = x0 * (d - k) + x1 * k;
    let nx2 = x0 * (d - (k + 1)) + x1 * (k + 1);
    assert(nx2 - nx1 == x1 - x0) by (nonlinear_arith)
        requires
            nx1 == x0 * (d - k) + x1 * k,
            nx2 == x0 * (d - (k + 1)) + x1 * (k + 1),
    {}
    if x1 - x0 == d || x0 - x1 == d {
        assert((v2 - v1) * d == x1 - x0) by (nonlinear_arith)
            requires
                v1 * d == nx1,
                v2 * d == nx2,
                nx2 - nx1 == x1 - x0,
        {}
        assert((x1 - x0 == d ==> v2 - v1 == 1) && (x0 - x1 == d ==> v2 - v1 == -1))
            by (nonlinear_arith)
            requires
                (v2 - v1) * d == x1 - x0,
                x1 - x0 == d || x0 - x1 == d,
                1 <= d,
        {}
    } else {
        assert(-(d - 1) <= x1 - x0 <= d - 1);
        assert(-1 <= v2 - v1 <= 1) by (nonlinear_arith)
            requires
                -d <= 2 * (v1 * d - nx1) <= d,
                -d <= 2 * (v2 * d - nx2) <= d,
                nx2 - nx1 == x1 - x0,
                -(d - 1) <= x1 - x0 <= d - 1,
                1 <= d,
        {}
    }
}

/// Consecutive sound samples of a line between consistent endpoints sit one
/// tile apart: every coordinate moves by at most one, the spanning
/// coordinate by exactly one, and the moves cancel.
proof fn lemma_samples_adjacent(
    a: CubeCoords,
    b: CubeCoords,
    d: int,
    k: int,
    p1: CubeCoords,
    p2: CubeCoords,
)
    requires
        a.spec_valid(),
        b.spec_valid(),
        d == cube_distance(a, b),
        1 <= d,
        sample_ok(a, b, d, k, p1),
        sample_ok(a, b, d, k + 1, p2),
        p1.spec_valid(),
        p2.spec_valid(),
    ensures
        cube_distance(p1, p2) == 1,
{
    lemma_some_coord_spans(a, b, d);
    lemma_coord_step(a.q as int, b.q as int, d, k, p1.q as int, p2.q as int);
    lemma_coord_step(a.r as int, b.r as int, d, k, p1.r as int, p2.r as int);
    lemma_coord_step(a.s as int, b.s as int, d, k, p1.s as int, p2.s as int);
    let mq = p2.q - p1.q;
    let mr = p2.r - p1.r;
    let ms = p2.s - p1.s;
    assert(mq + mr + ms == 0);
    assert(mq == 1 || mq == -1 || mr == 1 || mr == -1 || ms == 1 || ms == -1);
    assert(abs(mq) + abs(mr) + abs(ms) == 2);
}

/// Rounds the exact quotient of `n` over `d` to the nearest integer, ties
/// away from zero: the result is within half a step of the quotient.
fn round_div(n: i128, d: i128) -> (r: i128)
    requires
        1 <= d <= 0x10000000000000000000000000000000,
        -0x10000000000000000000000000000000 <= n <= 0x10000000000000000000000000000000,
    ensures
        -d <= 2 * (n - r * d) <= d,
{
    if n >= 0 {
        let q = n / d;
        proof {
            lemma_fundamental_div_mod(n as int, d as int);
            lemma_mod_bound(n as int, d as int);
            assert((q as int) == (n as int) / (d as int));
            assert((q as int) * (d as int) == (d as int) * ((n as int) / (d as int)))
                by (nonlinear_arith)
                requires
                    (q as int) == (n as int) / (d as int),
            {}
            assert((q as int + 1) * (d as int) == (q as int) * (d as int) + d)
                by (nonlinear_arith)
            {}
            assert(0 <= (q as int) * (d as int) <= n);
        }
        let rem = n - q * d;
        if 2 * rem >= d {
            q + 1
        } else {
            q
        }
    } else {
        let m = -n;
        let q = m / d;
        proof {
            lemma_fundamental_div_mod(m as int, d as int);
            lemma_mod_bound(m as int, d as int);
            assert((q as int) == (m as int) / (d as int));
            assert((q as int) * (d as int) == (d as int) * ((m as int) / (d as int)))
                by (nonlinear_arith)
                requires
                    (q as int) == (m as int) / (d as int),
            {}
            assert((q as int + 1) * (d as int) == (q as int) * (d as int) + d)
                by (nonlinear_arith)
            {}
            assert(0 <= (q as int) * (d as int) <= m);
        }
        let rem = m - q * d;
        let rr = if 2 * rem >= d {
            q + 1
        } else {
            q
        };
        proof {
            assert((-rr as int) * (d as int) == -((rr as int) * (d as int))) by (nonlinear_arith)
            {}
        }
        -rr
    }
}

impl CubeCoords {
    /// Returns a set of coordinates that form a straight line of adjacent
    /// tiles from `self` to `other`: one rounded sample per unit of tile
    /// distance.
    #[verifier::loop_isolation(false)]
    #[verifier::rlimit(60)]
    pub fn line_to(&self, other: &Self) -> (line: Vec<CubeCoords>)
        requires
            self.in_range(),
            other.in_range(),
        ensures
            line@.len() == cube_distance(*self, *other) + 1,
            self.spec_valid() && other.spec_valid() ==> {
                &&& line@[0] == *self
                &&& line@.last() == *other
                &&& forall|i: int| 0 <= i < line@.len() ==> (#[trigger] line@[i]).spec_valid()
                &&& forall|i: int|
                    0 <= i < line@.len() - 1 ==> cube_distance(#[trigger] line@[i], line@[i + 1])
                        == 1
                &&& forall|i: int|
                    0 <= i < line@.len() ==> sample_ok(
                        *self,
                        *other,
                        cube_distance(*self, *other),
                        i,
                        #[trigger] line@[i],
                    )
            },
    {
        let d = self.distance(other);
        if d == 0 {
            let mut line: Vec<CubeCoords> = Vec::new();
            line.push(*self);
            proof {
                if self.spec_valid() && other.spec_valid() {
                    // Valid coordinate sets at distance zero coincide: the
                    // component distances cancel and sum to at most one.
                    let sum = abs(self.q - other.q) + abs(self.r - other.r) + abs(
                        self.s - other.s);
                    assert(sum / 2 == 0);
                    assert(sum <= 1);
                    assert((self.q - other.q) + (self.r - other.r) + (self.s - other.s) == 0);
                    assert(*self == *other);
                }
            }
            return line;
        }
        let ghost bb = (isize::MAX as int) / 4;
        let q0 = self.q as i128;
        let r0 = self.r as i128;
        let s0 = self.s as i128;
        let q1 = other.q as i128;
        let r1 = other.r as i128;
        let s1 = other.s as i128;
        let dd = d as i128;
        proof {
            assert(1 <= dd <= 3 * bb + 2);
            assert(bb <= 0x2000000000000000);
        }
        let mut line: Vec<CubeCoords> = Vec::new();
        let mut n: i128 = 0;
        while n <= dd
            invariant
                0 <= n <= dd + 1,
                line@.len() == n,
                self.spec_valid() && other.spec_valid() ==> {
                    &&& (n >= 1 ==> line@[0] == *self)
                    &&& (n == dd + 1 ==> line@.last() == *other)
                    &&& forall|i: int| 0 <= i < line@.len() ==> (#[trigger] line@[i]).spec_valid()
                    &&& forall|k: int|
                        0 <= k < line@.len() ==> sample_ok(
                            *self,
                            *other,
                            dd as int,
                            k,
                            #[trigger] line@[k],
                        )
                },
            decreases dd + 1 - n,
        {
            proof {
                assert(-(bb * dd) <= q0 * (dd - n) <= bb * dd && -(bb * dd) <= q1 * n <= bb * dd
                    && -(bb * dd) <= q0 * (dd - n) + q1 * n <= bb * dd) by (nonlinear_arith)
                    requires
                        -bb <= q0 <= bb,
                        -bb <= q1 <= bb,
                        0 <= n <= dd,
                {}
                assert(-(bb * dd) <= r0 * (dd - n) <= bb * dd && -(bb * dd) <= r1 * n <= bb * dd
                    && -(bb * dd) <= r0 * (dd - n) + r1 * n <= bb * dd) by (nonlinear_arith)
                    requires
                        -bb <= r0 <= bb,
                        -bb <= r1 <= bb,
                        0 <= n <= dd,
                {}
                assert(-(bb * dd) <= s0 * (dd - n) <= bb * dd && -(bb * dd) <= s1 * n <= bb * dd
                    && -(bb * dd) <= s0 * (dd - n) + s1 * n <= bb * dd) by (nonlinear_arith)
                    requires
                        -bb <= s0 <= bb,
                        -bb <= s1 <= bb,
                        0 <= n <= dd,
                {}
                assert(bb * dd <= 0x10000000000000000000000000000000) by (nonlinear_arith)
                    requires
                        0 <= bb <= 0x2000000000000000,
                        0 <= dd <= 3 * bb + 2,
                {}
            }
            let nq = q0 * (dd - n) + q1 * n;
            let nr = r0 * (dd - n) + r1 * n;
            let ns = s0 * (dd - n) + s1 * n;
            let iq = round_div(nq, dd);
            let ir = round_div(nr, dd);
            let is_ = round_div(ns, dd);
            proof {
                assert(-(bb + 1) <= iq <= bb + 1) by (nonlinear_arith)
                    requires
                        -(bb * dd) <= nq <= bb * dd,
                        -dd <= 2 * (nq - iq * dd) <= dd,
                        1 <= dd,
                        0 <= bb,
                {}
                assert(-(bb + 1) <= ir <= bb + 1) by (nonlinear_arith)
                    requires
                        -(bb * dd) <= nr <= bb * dd,
                        -dd <= 2 * (nr - ir * dd) <= dd,
                        1 <= dd,
                        0 <= bb,
                {}
                assert(-(bb + 1) <= is_ <= bb + 1) by (nonlinear_arith)
                    requires
                        -(bb * dd) <= ns <= bb * dd,
                        -dd <= 2 * (ns - is_ * dd) <= dd,
                        1 <= dd,
                        0 <= bb,
                {}
            }
            let dq = nq - iq * dd;
            let dr = nr - ir * dd;
            let ds = ns - is_ * dd;
            let qd = if dq < 0 { -dq } else { dq };
            let rd = if dr < 0 { -dr } else { dr };
            let sd = if ds < 0 { -ds } else { ds };
            let (fq, fr, fs) = if qd > rd && qd > sd {
                (-ir - is_, ir, is_)
            } else if rd > sd {
                (iq, -iq - is_, is_)
            } else {
                (iq, ir, -iq - ir)
            };
            let c = CubeCoords { q: fq as isize, r: fr as isize, s: fs as isize };
            line.push(c);
            proof {
                if self.spec_valid() && other.spec_valid() {
                    assert(c.spec_valid());
                    // The three rounded coordinates are sound samples: a
                    // kept coordinate carries its rounding bound, and the
                    // corrected one inherits its bound from the untouched
                    // two, at least one of which is exact.
                    lemma_some_coord_spans(*self, *other, dd as int);
                    assert(nq + nr + ns == 0) by (nonlinear_arith)
                        requires
                            q0 + r0 + s0 == 0,
                            q1 + r1 + s1 == 0,
                            nq == q0 * (dd - n) + q1 * n,
                            nr == r0 * (dd - n) + r1 * n,
                            ns == s0 * (dd - n) + s1 * n,
                    {}
                    if q1 - q0 == dd || q0 - q1 == dd {
                        lemma_exact_coord(q0 as int, q1 as int, dd as int, n as int, iq as int);
                    }
                    if r1 - r0 == dd || r0 - r1 == dd {
                        lemma_exact_coord(r0 as int, r1 as int, dd as int, n as int, ir as int);
                    }
                    if s1 - s0 == dd || s0 - s1 == dd {
                        lemma_exact_coord(s0 as int, s1 as int, dd as int, n as int, is_ as int);
                    }
                    if qd > rd && qd > sd {
                        assert(!(q1 - q0 == dd || q0 - q1 == dd));
                        assert(dr == 0 || ds == 0);
                        assert(fq * dd - nq == dr + ds) by (nonlinear_arith)
                            requires
                                fq == -ir - is_,
                                nq + nr + ns == 0,
                                dr == nr - ir * dd,
                                ds == ns - is_ * dd,
                        {}
                    } else if rd > sd {
                        assert(!(r1 - r0 == dd || r0 - r1 == dd));
                        assert(dq == 0 || ds == 0);
                        assert(fr * dd - nr == dq + ds) by (nonlinear_arith)
                            requires
                                fr == -iq - is_,
                                nq + nr + ns == 0,
                                dq == nq - iq * dd,
                                ds == ns - is_ * dd,
                        {}
                    } else {
                        if s1 - s0 == dd || s0 - s1 == dd {
                            assert(sd == 0);
                            assert(rd == 0 && qd == 0);
                        }
                        assert(dq == 0 || dr == 0);
                        assert(fs * dd - ns == dq + dr) by (nonlinear_arith)
                            requires
                                fs == -iq - ir,
                                nq + nr + ns == 0,
                                dq == nq - iq * dd,
                                dr == nr - ir * dd,
                        {}
                    }
                    assert(sample_ok(*self, *other, dd as int, n as int, c));
                    if n == 0 {
                        assert(nq == q0 * dd && nr == r0 * dd && ns == s0 * dd)
                            by (nonlinear_arith)
                            requires
                                n == 0,
                                nq == q0 * (dd - n) + q1 * n,
                                nr == r0 * (dd - n) + r1 * n,
                                ns == s0 * (dd - n) + s1 * n,
                        {}
                        assert(iq == q0) by (nonlinear_arith)
                            requires
                                nq == q0 * dd,
                                -dd <= 2 * (nq - iq * dd) <= dd,
                                1 <= dd,
                        {}
                        assert(ir == r0) by (nonlinear_arith)
                            requires
                                nr == r0 * dd,
                                -dd <= 2 * (nr - ir * dd) <= dd,
                                1 <= dd,
                        {}
                        assert(is_ == s0) by (nonlinear_arith)
                            requires
                                ns == s0 * dd,
                                -dd <= 2 * (ns - is_ * dd) <= dd,
                                1 <= dd,
                        {}
                        assert(qd == 0 && rd == 0 && sd == 0);
                        assert(c == *self);
                        assert(line@[0] == *self);
                    }
                    if n == dd {
                        assert(nq == q1 * dd && nr == r1 * dd && ns == s1 * dd)
                            by (nonlinear_arith)
                            requires
                                n == dd,
                                nq == q0 * (dd - n) + q1 * n,
                                nr == r0 * (dd - n) + r1 * n,
                                ns == s0 * (dd - n) + s1 * n,
                        {}
                        assert(iq == q1) by (nonlinear_arith)
                            requires
                                nq == q1 * dd,
                                -dd <= 2 * (nq - iq * dd) <= dd,
                                1 <= dd,
                        {}
                        assert(ir == r1) by (nonlinear_arith)
                            requires
                                nr == r1 * dd,
                                -dd <= 2 * (nr - ir * dd) <= dd,
                                1 <= dd,
                        {}
                        assert(is_ == s1) by (nonlinear_arith)
                            requires
                                ns == s1 * dd,
                                -dd <= 2 * (ns - is_ * dd) <= dd,
                                1 <= dd,
                        {}
                        assert(qd == 0 && rd == 0 && sd == 0);
                        assert(c == *other);
                    }
                }
            }
            n = n + 1;
        }
        proof {
            if self.spec_valid() && other.spec_valid() {
                assert forall|i: int| 0 <= i < line@.len() - 1 implies cube_distance(
                    #[trigger] line@[i],
                    line@[i + 1],
                ) == 1 by {
                    lemma_samples_adjacent(*self, *other, dd as int, i, line@[i], line@[i + 1]);
                }
            }
        }
        line
    }
}

} // verus!

//! Tilemap related things

pub mod path;

use vstd::prelude::*;
use vstd::pervasive::cloned;
use crate::hex::AxialCoords;
use crate::hex::axial::axial_distance;
use crate::traits::{Tile, TileCoords};

verus! {

/// A structure that can hold a map of tiles at arbitrary coordinates
pub struct TileMap<C, T> {
    keys: Vec<C>,
    tiles: Vec<T>,
}

/// The map described by paired sequences of coordinates and tiles; a later
/// pair with the same coordinate overrides an earlier one.
pub open spec fn entry_map<C, T>(ks: Seq<C>, ts: Seq<T>) -> Map<C, T>
    decreases ks.len(),
{
    if ks.len() == 0 {
        Map::empty()
    } else {
        entry_map(ks.drop_last(), ts.drop_last()).insert(ks.last(), ts.last())
    }
}

/// The association map contains a coordinate exactly when the key sequence
/// holds it.
proof fn lemma_entry_map_contains<C, T>(ks: Seq<C>, ts: Seq<T>, k: C)
    requires
        ks.len() == ts.len(),
    ensures
        entry_map(ks, ts).contains_key(k) <==> ks.contains(k),
    decreases ks.len(),
{
    if ks.len() == 0 {
        assert(!ks.contains(k));
    } else {
        lemma_entry_map_contains(ks.drop_last(), ts.drop_last(), k);
        assert(ks[ks.len() - 1] == ks.last());
        if ks.last() == k {
            assert(ks.contains(k));
        }
        if ks.contains(k) && ks.last() != k {
            let i = choose|i: int| 0 <= i < ks.len() && ks[i] == k;
            assert(ks.drop_last()[i] == k);
            assert(ks.drop_last().contains(k));
        }
        if ks.drop_last().contains(k) {
            let i = choose|i: int| 0 <= i < ks.drop_last().len() && ks.drop_last()[i] == k;
            assert(ks[i] == k);
            assert(ks.contains(k));
        }
    }
}

/// With distinct coordinates, the association map sends each stored
/// coordinate to the tile stored beside it.
proof fn lemma_entry_map_index<C, T>(ks: Seq<C>, ts: Seq<T>, i: int)
    requires
        ks.len() == ts.len(),
        ks.no_duplicates(),
        0 <= i < ks.len(),
    ensures
        entry_map(ks, ts).contains_key(ks[i]),
        entry_map(ks, ts)[ks[i]] == ts[i],
    decreases ks.len(),
{
    if i < ks.len() - 1 {
        assert(ks[ks.len() - 1] == ks.last());
        lemma_entry_map_index(ks.drop_last(), ts.drop_last(), i);
    }
}

/// With distinct coordinates, the association map has exactly one entry per
/// pair.
proof fn lemma_entry_map_len<C, T>(ks: Seq<C>, ts: Seq<T>)
    requires
        ks.len() == ts.len(),
        ks.no_duplicates(),
    ensures
        entry_map(ks, ts).dom().finite(),
        entry_map(ks, ts).dom().len() == ks.len(),
{
    broadcast use vstd::seq_lib::seq_to_set_is_finite;

    assert forall|k: C| entry_map(ks, ts).dom().contains(k) <==> ks.to_set().contains(k) by {
        lemma_entry_map_contains(ks, ts, k);
    }
    assert(entry_map(ks, ts).dom() =~= ks.to_set());
    ks.unique_seq_to_set();
}

/// Appending a pair updates the association map at the new coordinate.
proof fn lemma_entry_map_push<C, T>(ks: Seq<C>, ts: Seq<T>, k: C, t: T)
    ensures
        entry_map(ks.push(k), ts.push(t)) == entry_map(ks, ts).insert(k, t),
{
    assert(ks.push(k).drop_last() =~= ks);
    assert(ts.push(t).drop_last() =~= ts);
    assert(ks.push(k).last() == k);
    assert(ts.push(t).last() == t);
}

/// Removing the one pair that holds a coordinate removes that coordinate
/// from the association map and keeps the remaining coordinates distinct.
proof fn lemma_entry_map_remove<C, T>(ks: Seq<C>, ts: Seq<T>, i: int)
    requires
        ks.len() == ts.len(),
        ks.no_duplicates(),
        0 <= i < ks.len(),
    ensures
        ks.remove(i).no_duplicates(),
        !ks.remove(i).contains(ks[i]),
        entry_map(ks.remove(i), ts.remove(i)) == entry_map(ks, ts).remove(ks[i]),
    decreases ks.len(),
{
    let k = ks[i];
    ks.remove_ensures(i);
    ts.remove_ensures(i);
    assert forall|j: int| 0 <= j < ks.remove(i).len() implies ks.remove(i)[j] != k by {
        if j < i {
            assert(ks.remove(i)[j] == ks[j]);
        } else {
            assert(ks.remove(i)[j] == ks[j + 1]);
        }
    }
    if ks.remove(i).contains(k) {
        let j = choose|j: int| 0 <= j < ks.remove(i).len() && ks.remove(i)[j] == k;
        assert(false);
    }
    assert(ks.remove(i).no_duplicates()) by {
        assert forall|a: int, b: int|
            0 <= a < ks.remove(i).len() && 0 <= b < ks.remove(i).len() && a != b implies ks.remove(
            i,
        )[a] != ks.remove(i)[b] by {
            let a0: int = if a < i {
                a
            } else {
                a + 1
            };
            let b0: int = if b < i {
                b
            } else {
                b + 1
            };
            assert(ks.remove(i)[a] == ks[a0]);
            assert(ks.remove(i)[b] == ks[b0]);
        }
    }
    if i == ks.len() - 1 {
        assert(ks.remove(i) =~= ks.drop_last());
        assert(ts.remove(i) =~= ts.drop_last());
        lemma_entry_map_contains(ks.drop_last(), ts.drop_last(), k);
        if ks.drop_last().contains(k) {
            let j = choose|j: int| 0 <= j < ks.drop_last().len() && ks.drop_last()[j] == k;
            assert(ks[j] == k);
            assert(ks[i] == k);
            assert(false);
        }
        assert(entry_map(ks.remove(i), ts.remove(i)) =~= entry_map(ks, ts).remove(k));
    } else {
        lemma_entry_map_remove(ks.drop_last(), ts.drop_last(), i);
        assert(ks.remove(i).drop_last() =~= ks.drop_last().remove(i));
        assert(ts.remove(i).drop_last() =~= ts.drop_last().remove(i));
        assert(ks.remove(i).last() == ks.last());
        assert(ts.remove(i).last() == ts.last());
        assert(ks[ks.len() - 1] == ks.last());
        assert(ks.drop_last()[i] == ks[i]);
        assert(entry_map(ks.remove(i), ts.remove(i)) == entry_map(
            ks.drop_last().remove(i),
            ts.drop_last().remove(i),
        ).insert(ks.last(), ts.last()));
        assert(entry_map(ks.remove(i), ts.remove(i)) =~= entry_map(ks, ts).remove(k));
    }
}

/// Replacing the tile beside one stored coordinate updates the association
/// map at that coordinate alone.
proof fn lemma_entry_map_update<C, T>(ks: Seq<C>, ts: Seq<T>, i: int)
    requires
        ks.len() == ts.len(),
        ks.no_duplicates(),
        0 <= i < ks.len(),
    ensures
        forall|v: T| #[trigger]
            entry_map(ks, ts.update(i, v)) == entry_map(ks, ts).insert(ks[i], v),
    decreases ks.len(),
{
    assert forall|v: T| #[trigger] entry_map(ks, ts.update(i, v)) == entry_map(ks, ts).insert(
        ks[i],
        v,
    ) by {
        let k = ks[i];
        let tu = ts.update(i, v);
        assert(ks[ks.len() - 1] == ks.last());
        if i == ks.len() - 1 {
            assert(tu.drop_last() =~= ts.drop_last());
            assert(tu.last() == v);
            assert(entry_map(ks, tu) == entry_map(ks.drop_last(), ts.drop_last()).insert(k, v));
            assert(entry_map(ks, tu) =~= entry_map(ks, ts).insert(k, v));
        } else {
            lemma_entry_map_update(ks.drop_last(), ts.drop_last(), i);
            assert(tu.drop_last() =~= ts.drop_last().update(i, v));
            assert(tu.last() == ts.last());
            assert(ks.drop_last()[i] == k);
            assert(entry_map(ks.drop_last(), ts.drop_last().update(i, v)) == entry_map(
                ks.drop_last(),
                ts.drop_last(),
            ).insert(k, v));
            assert(entry_map(ks, tu) == entry_map(ks.drop_last(), ts.drop_last().update(i, v)).insert(
                ks.last(),
                ts.last(),
            ));
            assert(entry_map(ks, tu) =~= entry_map(ks, ts).insert(k, v));
        }
    }
}

impl<C, T> View for TileMap<C, T> {
    type V = Map<C, T>;

    closed spec fn view(&self) -> Map<C, T> {
        entry_map(self.keys@, self.tiles@)
    }
}

impl<C, T> TileMap<C, T> {
    /// Each coordinate is stored at most once, beside exactly one tile.
    #[verifier::type_invariant]
    closed spec fn wf(self) -> bool {
        &&& self.keys@.no_duplicates()
        &&& self.keys@.len() == self.tiles@.len()
    }

    /// Creates a new `TileMap` with no tiles
    pub fn new() -> (m: Self)
        ensures
            m@ == Map::<C, T>::empty(),
    {
        Self { keys: Vec::new(), tiles: Vec::new() }
    }

    /// Number of tiles stored in the map.
    pub fn len(&self) -> (n: usize)
        ensures
            n == self@.dom().len(),
            self@.dom().finite(),
    {
        proof {
            use_type_invariant(self);
            lemma_entry_map_len(self.keys@, self.tiles@);
        }
        self.keys.len()
    }

    /// Position of the pair that stores the given coordinates, if any.
    fn index_of_key(&self, coord: &C) -> (r: Option<usize>) where C: TileCoords
        ensures
            match r {
                Some(i) => i < self.keys@.len() && self.keys@[i as int] == *coord,
                None => !self.keys@.contains(*coord),
            },
    {
        let n = self.keys.len();
        let mut i: usize = 0;
        while i < n
            invariant
                n == self.keys@.len(),
                i <= n,
                forall|j: int| 0 <= j < i ==> self.keys@[j] != *coord,
            decreases n - i,
        {
            if self.keys[i].coords_eq(coord) {
                return Some(i);
            }
            i = i + 1;
        }
        proof {
            if self.keys@.contains(*coord) {
                let j = choose|j: int| 0 <= j < self.keys@.len() && self.keys@[j] == *coord;
                assert(false);
            }
        }
        None
    }

    /// Whether the map stores a tile at the given coordinates.
    pub fn contains_coords(&self, coord: &C) -> (r: bool) where C: TileCoords
        ensures
            r == self@.contains_key(*coord),
    {
        proof {
            use_type_invariant(self);
            lemma_entry_map_contains(self.keys@, self.tiles@, *coord);
        }
        let idx = self.index_of_key(coord);
        proof {
            if let Some(i) = idx {
                assert(self.keys@.contains(*coord));
            }
        }
        idx.is_some()
    }

    /// Gets the tile that's at the given coordinates. If there is no tile at
    /// those coordinates, `None` is returned.
    pub fn get_tile(&self, coord: &C) -> (r: Option<&T>) where C: TileCoords
        ensures
            match r {
                Some(t) => self@.contains_key(*coord) && *t == self@[*coord],
                None => !self@.contains_key(*coord),
            },
    {
        proof {
            use_type_invariant(self);
            lemma_entry_map_contains(self.keys@, self.tiles@, *coord);
        }
        match self.index_of_key(coord) {
            Some(i) => {
                proof {
                    lemma_entry_map_index(self.keys@, self.tiles@, i as int);
                }
                Some(&self.tiles[i])
            },
            None => None,
        }
    }

    /// Borrows the tile that's at the given coordinates for updating. If
    /// there is no tile at those coordinates, `None` is returned.
    pub fn get_tile_mut(&mut self, coord: &C) -> (r: Option<&mut T>) where C: TileCoords
        ensures
            match r {
                Some(t) => {
                    &&& old(self)@.contains_key(*coord)
                    &&& *t == old(self)@[*coord]
                    &&& final(self)@ == old(self)@.insert(*coord, *final(t))
                },
                None => {
                    &&& !old(self)@.contains_key(*coord)
                    &&& final(self)@ == old(self)@
                },
            },
    {
        proof {
            use_type_invariant(&*self);
            lemma_entry_map_contains(self.keys@, self.tiles@, *coord);
        }
        match self.index_of_key(coord) {
            Some(i) => {
                proof {
                    lemma_entry_map_index(self.keys@, self.tiles@, i as int);
                    lemma_entry_map_update(self.keys@, self.tiles@, i as int);
                }
                Some(&mut self.tiles[i])
            },
            None => None,
        }
    }

    /// Insert a new tile into the map at the given coordinates.
    ///
    /// If there is already a tile there, it will be replaced by the new tile,
    /// with the old tile data returned by the function.
    pub fn insert_tile(&mut self, coord: C, tile: T) -> (r: Option<T>) where C: TileCoords
        ensures
            final(self)@ == old(self)@.insert(coord, tile),
            r == if old(self)@.contains_key(coord) {
                Some(old(self)@[coord])
            } else {
                None::<T>
            },
    {
        proof {
            use_type_invariant(&*self);
            lemma_entry_map_contains(self.keys@, self.tiles@, coord);
        }
        let idx = self.index_of_key(&coord);
        let mut taken = TileMap { keys: Vec::new(), tiles: Vec::new() };
        std::mem::swap(&mut taken, self);
        let TileMap { mut keys, mut tiles } = taken;
        let ghost ks = keys@;
        let ghost ts = tiles@;
        let old_tile: Option<T> = match idx {
            Some(i) => {
                proof {
                    lemma_entry_map_index(ks, ts, i as int);
                    lemma_entry_map_remove(ks, ts, i as int);
                    assert(ks.contains(coord));
                }
                keys.remove(i);
                Some(tiles.remove(i))
            },
            None => None,
        };
        proof {
            let ks1 = keys@;
            assert(ks1.push(coord).no_duplicates()) by {
                if idx is None {
                    assert(!ks1.contains(coord));
                }
                assert forall|a: int, b: int|
                    0 <= a < ks1.push(coord).len() && 0 <= b < ks1.push(coord).len() && a
                        != b implies ks1.push(coord)[a] != ks1.push(coord)[b] by {
                    if a < ks1.len() && b < ks1.len() {
                        assert(ks1.push(coord)[a] == ks1[a]);
                        assert(ks1.push(coord)[b] == ks1[b]);
                    } else if a < ks1.len() {
                        assert(ks1.push(coord)[a] == ks1[a]);
                        assert(ks1.contains(ks1[a]));
                    } else {
                        assert(ks1.push(coord)[b] == ks1[b]);
                        assert(ks1.contains(ks1[b]));
                    }
                }
            }
            lemma_entry_map_push(keys@, tiles@, coord, tile);
        }
        keys.push(coord);
        tiles.push(tile);
        *self = TileMap { keys, tiles };
        proof {
            assert(final(self)@ =~= old(self)@.insert(coord, tile));
        }
        old_tile
    }
}

impl<T: Clone> TileMap<AxialCoords, T> {
    /// Fills every coordinate within the given distance of `center` with a
    /// copy of the given tile, replacing whatever was stored there.
    #[verifier::loop_isolation(false)]
    pub fn init_area(&mut self, center: AxialCoords, tile: T, radius: isize)
        requires
            center.in_range(),
            radius <= (isize::MAX as int) / 8,
        ensures
            forall|k: AxialCoords| #[trigger]
                old(self)@.contains_key(k) ==> final(self)@.contains_key(k),
            forall|k: AxialCoords|
                axial_distance(center, k) <= radius ==> final(self)@.contains_key(k)
                    && cloned::<T>(tile, final(self)@[k]),
            forall|k: AxialCoords| #[trigger]
                final(self)@.contains_key(k) ==> (old(self)@.contains_key(k) && final(self)@[k]
                    == old(self)@[k]) || (axial_distance(center, k) <= radius && cloned::<T>(
                    tile,
                    final(self)@[k],
                )),
    {
        let coords_to_add = center.area_tiles(radius);
        let n = coords_to_add.len();
        let mut i: usize = 0;
        while i < n
            invariant
                i <= n,
                forall|k: AxialCoords| #[trigger]
                    old(self)@.contains_key(k) ==> self@.contains_key(k),
                forall|j: int|
                    0 <= j < i ==> self@.contains_key(#[trigger] coords_to_add@[j]) && cloned::<
                        T,
                    >(tile, self@[coords_to_add@[j]]),
                forall|k: AxialCoords| #[trigger]
                    self@.contains_key(k) ==> (old(self)@.contains_key(k) && self@[k] == old(
                        self,
                    )@[k]) || (axial_distance(center, k) <= radius && cloned::<T>(tile, self@[k])),
            decreases n - i,
        {
            let coord = coords_to_add[i];
            let t = tile.clone();
            self.insert_tile(coord, t);
            i = i + 1;
        }
        proof {
            assert forall|k: AxialCoords| axial_distance(center, k) <= radius implies final(
                self)@.contains_key(k) && cloned::<T>(tile, final(self)@[k]) by {
                assert(0 <= axial_distance(center, k));
                assert(coords_to_add@.contains(k));
                let j = choose|j: int| 0 <= j < coords_to_add@.len() && coords_to_add@[j] == k;
                assert(self@.contains_key(coords_to_add@[j]));
                assert(cloned::<T>(tile, self@[coords_to_add@[j]]));
            }
        }
    }
}

/// Tile map using hexagonal coordinates
pub type HexMap<T> = TileMap<AxialCoords, T>;

/// Tile with the default traversal cost of 1; useful for maps where every
/// space costs the same to enter.
#[derive(Clone, Copy, Debug)]
pub struct EmptyTile;

impl Tile for EmptyTile {
    open spec fn spec_cost(self) -> nat {
        1
    }

    fn pathfind_cost(&self) -> (c: u64) {
        1
    }
}

/// Tile with a caller-chosen traversal cost. A cost of zero is legal and
/// models free movement.
#[derive(Clone, Copy, Debug)]
pub struct WeightedTile {
    pub cost: u64,
}

impl Tile for WeightedTile {
    open spec fn spec_cost(self) -> nat {
        self.cost as nat
    }

    fn pathfind_cost(&self) -> (c: u64) {
        self.cost
    }
}

/// Tile that distinguishes cheap roads from expensive open ground: ground
/// costs 5 to enter, a road costs 1.
#[derive(Clone, Copy, Debug)]
pub enum CostTestTile {
    Ground,
    Road,
}

impl Tile for CostTestTile {
    open spec fn spec_cost(self) -> nat {
        match self {
            CostTestTile::Ground => 5,
            CostTestTile::Road => 1,
        }
    }

    fn pathfind_cost(&self) -> (c: u64) {
        match self {
            CostTestTile::Ground => 5,
            CostTestTile::Road => 1,
        }
    }
}

} // verus!

//! Module containing pathfinding logic

use vstd::prelude::*;
use vstd::arithmetic::mul::lemma_mul_inequality;
use crate::map::TileMap;
use crate::traits::{Tile, TileCoords};

verus! {

/// Best-known search state for one coordinate during a single search run.
#[derive(Clone)]
pub struct PathfindNode<C> {
    /// Accumulated cost from the start coordinate along the best route found
    /// so far.
    pub total_cost: u128,
    /// Coordinate from which this node was most recently reached along its
    /// best-known route, or `None` for the start node.
    pub from_coords: Option<C>,
}

/// Used to find paths through tilemaps
pub struct Pathfinder<C> {
    coords_to_search: Vec<C>,
    searched_coords: Vec<C>,
    path_map: TileMap<C, PathfindNode<C>>,
}

/// `p` is a walk over the grid from `start` to `end`: it begins at `start`,
/// finishes at `end`, every step moves to an adjacent coordinate, and every
/// coordinate after the first has a stored tile. The start itself need not be
/// on the map.
pub open spec fn is_path<C: TileCoords, T: Tile>(
    grid: Map<C, T>,
    p: Seq<C>,
    start: C,
    end: C,
) -> bool {
    &&& p.len() >= 1
    &&& p[0] == start
    &&& p.last() == end
    &&& forall|i: int| 0 <= i < p.len() - 1 ==> #[trigger] p[i].adjacent_spec(p[i + 1])
    &&& forall|i: int| 1 <= i < p.len() ==> grid.contains_key(#[trigger] p[i])
}

/// Total cost of a walk: the sum of the costs of the tiles entered, that is,
/// of every coordinate on the walk except the first.
pub open spec fn path_cost<C: TileCoords, T: Tile>(grid: Map<C, T>, p: Seq<C>) -> int
    decreases p.len(),
{
    if p.len() <= 1 {
        0
    } else {
        path_cost(grid, p.drop_last()) + grid[p.last()].spec_cost()
    }
}

/// On a grid whose tiles all cost one, a walk's cost is its hop count.
proof fn lemma_uniform_path_cost<C: TileCoords, T: Tile>(grid: Map<C, T>, p: Seq<C>)
    requires
        forall|c: C| #[trigger] grid.contains_key(c) ==> grid[c].spec_cost() == 1,
        p.len() >= 1,
        forall|i: int| 1 <= i < p.len() ==> grid.contains_key(#[trigger] p[i]),
    ensures
        path_cost(grid, p) == p.len() - 1,
    decreases p.len(),
{
    if p.len() > 1 {
        assert forall|i: int| 1 <= i < p.drop_last().len() implies grid.contains_key(
            #[trigger] p.drop_last()[i],
        ) by {
            assert(grid.contains_key(p[i]));
        }
        lemma_uniform_path_cost(grid, p.drop_last());
        assert(grid.contains_key(p[p.len() - 1]));
    }
}

/// On a grid where every tile has cost one, a walk of minimum total cost is
/// also a walk of minimum length: no other walk between the same endpoints
/// makes fewer hops.
pub proof fn lemma_uniform_cost_shortest<C: TileCoords, T: Tile>(
    grid: Map<C, T>,
    p: Seq<C>,
    q: Seq<C>,
    start: C,
    end: C,
)
    requires
        forall|c: C| #[trigger] grid.contains_key(c) ==> grid[c].spec_cost() == 1,
        is_path(grid, p, start, end),
        is_path(grid, q, start, end),
        path_cost(grid, p) <= path_cost(grid, q),
    ensures
        p.len() <= q.len(),
{
    lemma_uniform_path_cost(grid, p);
    lemma_uniform_path_cost(grid, q);
}

/// `p` stays off the given set of coordinates.
pub open spec fn path_avoids<C: TileCoords>(p: Seq<C>, region: Set<C>) -> bool {
    forall|i: int| 0 <= i < p.len() ==> !region.contains(#[trigger] p[i])
}

/// A minimum-cost walk routes through a cheaper region whenever doing so
/// pays: if some walk `w` costs less than every walk that avoids `region`,
/// then a walk that no other walk undercuts passes through `region`.
pub proof fn lemma_cheaper_route_taken<C: TileCoords, T: Tile>(
    grid: Map<C, T>,
    ret: Seq<C>,
    w: Seq<C>,
    start: C,
    end: C,
    region: Set<C>,
)
    requires
        is_path(grid, ret, start, end),
        forall|q: Seq<C>| #[trigger]
            is_path(grid, q, start, end) ==> path_cost(grid, q) >= path_cost(grid, ret),
        is_path(grid, w, start, end),
        forall|q: Seq<C>| #[trigger]
            is_path(grid, q, start, end) && path_avoids(q, region) ==> path_cost(grid, q)
                > path_cost(grid, w),
    ensures
        !path_avoids(ret, region),
{
    if path_avoids(ret, region) {
        assert(path_cost(grid, ret) > path_cost(grid, w));
        assert(path_cost(grid, w) >= path_cost(grid, ret));
        assert(false);
    }
}

/// Walk costs are sums of non-negative tile costs.
proof fn lemma_path_cost_nonneg<C: TileCoords, T: Tile>(grid: Map<C, T>, p: Seq<C>)
    ensures
        path_cost(grid, p) >= 0,
    decreases p.len(),
{
    if p.len() > 1 {
        lemma_path_cost_nonneg(grid, p.drop_last());
    }
}

/// Every coordinate adjacent to a finalized coordinate and backed by a tile
/// has been discovered, and its recorded cost is no worse than stepping onto
/// it from that finalized coordinate.
spec fn nodes_relaxed<C: TileCoords, T: Tile>(
    grid: Map<C, T>,
    pm: Map<C, PathfindNode<C>>,
    done: Seq<C>,
) -> bool {
    forall|y: C, z: C|
        done.contains(y) && #[trigger] y.adjacent_spec(z) && grid.contains_key(z) ==> {
            &&& pm.contains_key(y)
            &&& pm.contains_key(z)
            &&& pm[z].total_cost <= pm[y].total_cost + grid[z].spec_cost()
        }
}

/// The recorded cost of every coordinate in `done`, and of `extra`, is a
/// lower bound on the cost of every walk from `start` to it.
spec fn costs_are_lower_bounds<C: TileCoords, T: Tile>(
    grid: Map<C, T>,
    pm: Map<C, PathfindNode<C>>,
    done: Seq<C>,
    extra: Option<C>,
    start: C,
) -> bool {
    forall|c: C, p: Seq<C>|
        (done.contains(c) || extra == Some(c)) && #[trigger] is_path(grid, p, start, c)
            ==> path_cost(grid, p) >= pm[c].total_cost
}

/// Predecessor links form well-founded chains: every discovered coordinate
/// other than the start has a predecessor that was finalized strictly earlier,
/// is adjacent to it, and explains its recorded cost.
spec fn preds_ok<C: TileCoords, T: Tile>(
    grid: Map<C, T>,
    pm: Map<C, PathfindNode<C>>,
    done: Seq<C>,
    start: C,
) -> bool {
    forall|c: C| #[trigger]
        pm.contains_key(c) ==> match pm[c].from_coords {
            None => c == start,
            Some(d) => {
                &&& c != start
                &&& pm.contains_key(d)
                &&& done.contains(d)
                &&& d.adjacent_spec(c)
                &&& grid.contains_key(c)
                &&& pm[c].total_cost >= pm[d].total_cost + grid[c].spec_cost()
                &&& (done.contains(c) ==> exists|i: int, j: int|
                    0 <= i < j < done.len() && done[i] == d && done[j] == c)
            },
        }
}

/// Cost of the tiles entered along a destination-to-source walk: the sum of
/// the costs of every coordinate except the last.
spec fn rev_steps_cost<C: TileCoords, T: Tile>(grid: Map<C, T>, s: Seq<C>) -> int
    decreases s.len(),
{
    if s.len() <= 1 {
        0
    } else {
        grid[s[0]].spec_cost() + rev_steps_cost(grid, s.drop_first())
    }
}

/// Extending a destination-to-source walk by one step adds the cost of the
/// coordinate stepped away from.
proof fn lemma_rev_steps_push<C: TileCoords, T: Tile>(grid: Map<C, T>, s: Seq<C>, x: C)
    requires
        s.len() >= 1,
    ensures
        rev_steps_cost(grid, s.push(x)) == rev_steps_cost(grid, s) + grid[s.last()].spec_cost(),
    decreases s.len(),
{
    assert(s.push(x)[0] == s[0]);
    if s.len() == 1 {
        assert(s.push(x).drop_first() =~= seq![x]);
        assert(rev_steps_cost(grid, seq![x]) == 0);
        assert(s.last() == s[0]);
    } else {
        assert(s.push(x).drop_first() =~= s.drop_first().push(x));
        lemma_rev_steps_push(grid, s.drop_first(), x);
        assert(s.drop_first().last() == s.last());
    }
}

/// A destination-to-source walk read in reverse has exactly the cost its
/// steps accumulated.
proof fn lemma_rev_steps_reverse<C: TileCoords, T: Tile>(grid: Map<C, T>, s: Seq<C>)
    ensures
        path_cost(grid, s.reverse()) == rev_steps_cost(grid, s),
    decreases s.len(),
{
    if s.len() > 1 {
        assert(s.reverse().last() == s[0]);
        assert(s.reverse().drop_last() =~= s.drop_first().reverse());
        lemma_rev_steps_reverse(grid, s.drop_first());
    }
}

/// Position of an element in a sequence.
spec fn seq_rank<C>(s: Seq<C>, c: C) -> int {
    choose|i: int| 0 <= i < s.len() && s[i] == c
}

/// Measure of a coordinate for the predecessor walk: its finalization rank,
/// with never-finalized coordinates above all ranks.
spec fn walk_measure<C>(done: Seq<C>, c: C) -> int {
    if done.contains(c) {
        seq_rank(done, c)
    } else {
        done.len() as int
    }
}

/// A sequence of distinct elements drawn from a finite set and one extra
/// value cannot outgrow that set by more than one.
proof fn lemma_searched_bound<C>(s: Seq<C>, dom: Set<C>, start: C)
    requires
        s.no_duplicates(),
        dom.finite(),
        forall|c: C| s.contains(c) ==> dom.contains(c) || c == start,
    ensures
        s.len() <= dom.len() + 1,
{
    broadcast use vstd::seq_lib::seq_to_set_is_finite;
    broadcast use vstd::set::group_set_axioms;

    s.unique_seq_to_set();
    assert(s.to_set().subset_of(dom.insert(start)));
    vstd::set_lib::lemma_len_subset(s.to_set(), dom.insert(start));
}

/// Any walk that starts inside `done` and leaves it passes through a
/// discovered coordinate outside `done` whose recorded cost the walk's total
/// cost cannot beat.
proof fn lemma_path_exit_cost<C: TileCoords, T: Tile>(
    grid: Map<C, T>,
    pm: Map<C, PathfindNode<C>>,
    done: Seq<C>,
    start: C,
    c: C,
    p: Seq<C>,
)
    requires
        done.contains(start),
        costs_are_lower_bounds(grid, pm, done, None, start),
        nodes_relaxed(grid, pm, done),
        is_path(grid, p, start, c),
        !done.contains(c),
    ensures
        exists|z: C|
            #[trigger] pm.contains_key(z) && !done.contains(z) && pm[z].total_cost <= path_cost(
                grid,
                p,
            ),
    decreases p.len(),
{
    if p.len() == 1 {
        assert(c == start);
        assert(false);
    } else {
        let q = p.drop_last();
        let y = p[p.len() - 2];
        assert(is_path(grid, q, start, y)) by {
            assert(q[0] == p[0]);
            assert forall|i: int| 0 <= i < q.len() - 1 implies #[trigger] q[i].adjacent_spec(
                q[i + 1],
            ) by {
                assert(p[i].adjacent_spec(p[i + 1]));
            }
            assert forall|i: int| 1 <= i < q.len() implies grid.contains_key(#[trigger] q[i]) by {
                assert(grid.contains_key(p[i]));
            }
        }
        let m = p.len() - 2;
        assert(p[m].adjacent_spec(p[m + 1]));
        assert(y.adjacent_spec(c));
        assert(grid.contains_key(c));
        assert(path_cost(grid, p) == path_cost(grid, q) + grid[c].spec_cost());
        if done.contains(y) {
            assert(path_cost(grid, q) >= pm[y].total_cost);
            assert(pm.contains_key(c) && pm[c].total_cost <= pm[y].total_cost
                + grid[c].spec_cost());
            assert(pm.contains_key(c) && !done.contains(c) && pm[c].total_cost <= path_cost(
                grid,
                p,
            ));
        } else {
            lemma_path_exit_cost(grid, pm, done, start, y, q);
            let z = choose|z: C|
                #[trigger] pm.contains_key(z) && !done.contains(z) && pm[z].total_cost
                    <= path_cost(grid, q);
            assert(pm.contains_key(z) && !done.contains(z) && pm[z].total_cost <= path_cost(
                grid,
                p,
            ));
        }
    }
}

/// Predecessor chains stay well-founded when one more coordinate is
/// finalized.
proof fn lemma_preds_ok_extend<C: TileCoords, T: Tile>(
    grid: Map<C, T>,
    pm: Map<C, PathfindNode<C>>,
    done: Seq<C>,
    cur: C,
    start: C,
)
    requires
        preds_ok(grid, pm, done, start),
        !done.contains(cur),
    ensures
        preds_ok(grid, pm, done.push(cur), start),
{
    broadcast use vstd::seq_lib::lemma_seq_contains_after_push;

    let done1 = done.push(cur);
    assert forall|c: C| #[trigger] pm.contains_key(c) implies match pm[c].from_coords {
        None => c == start,
        Some(d) => {
            &&& c != start
            &&& pm.contains_key(d)
            &&& done1.contains(d)
            &&& d.adjacent_spec(c)
            &&& grid.contains_key(c)
            &&& pm[c].total_cost >= pm[d].total_cost + grid[c].spec_cost()
            &&& (done1.contains(c) ==> exists|i: int, j: int|
                0 <= i < j < done1.len() && done1[i] == d && done1[j] == c)
        },
    } by {
        match pm[c].from_coords {
            None => {},
            Some(d) => {
                let di = choose|i: int| 0 <= i < done.len() && done[i] == d;
                assert(done1[di] == d);
                assert(done1.contains(d));
                if done1.contains(c) {
                    if done.contains(c) {
                        let (i, j) = choose|i: int, j: int|
                            0 <= i < j < done.len() && done[i] == d && done[j] == c;
                        assert(done1[i] == d && done1[j] == c);
                    } else {
                        assert(c == cur);
                        assert(done1[done.len() as int] == c);
                        assert(0 <= di < done.len() < done1.len() && done1[di] == d
                            && done1[done.len() as int] == c);
                    }
                }
            },
        }
    }
}

/// Predecessor chains survive discovering or relaxing an unfinalized node
/// whose new record is explained by a finalized neighbour.
proof fn lemma_preds_ok_insert<C: TileCoords, T: Tile>(
    grid: Map<C, T>,
    pm: Map<C, PathfindNode<C>>,
    done: Seq<C>,
    start: C,
    a: C,
    node: PathfindNode<C>,
    cur: C,
)
    requires
        preds_ok(grid, pm, done, start),
        node.from_coords == Some(cur),
        pm.contains_key(cur),
        done.contains(cur),
        cur.adjacent_spec(a),
        grid.contains_key(a),
        a != start,
        a != cur,
        !done.contains(a),
        node.total_cost >= pm[cur].total_cost + grid[a].spec_cost(),
    ensures
        preds_ok(grid, pm.insert(a, node), done, start),
{
    let pm1 = pm.insert(a, node);
    assert forall|c: C| #[trigger] pm1.contains_key(c) implies match pm1[c].from_coords {
        None => c == start,
        Some(d) => {
            &&& c != start
            &&& pm1.contains_key(d)
            &&& done.contains(d)
            &&& d.adjacent_spec(c)
            &&& grid.contains_key(c)
            &&& pm1[c].total_cost >= pm1[d].total_cost + grid[c].spec_cost()
            &&& (done.contains(c) ==> exists|i: int, j: int|
                0 <= i < j < done.len() && done[i] == d && done[j] == c)
        },
    } by {
        if c == a {
            assert(pm1[a] == node);
            assert(cur != a);
            assert(pm1[cur] == pm[cur]);
        } else {
            assert(pm1[c] == pm[c]);
            assert(pm.contains_key(c));
            match pm[c].from_coords {
                None => {},
                Some(d) => {
                    // Predecessors are finalized, so the target of the
                    // insertion is never one of them.
                    assert(done.contains(d));
                    assert(d != a);
                    assert(pm1[d] == pm[d]);
                },
            }
        }
    }
}

/// The relaxation property survives lowering or discovering an unfinalized
/// node.
proof fn lemma_relaxed_insert<C: TileCoords, T: Tile>(
    grid: Map<C, T>,
    pm: Map<C, PathfindNode<C>>,
    done: Seq<C>,
    a: C,
    node: PathfindNode<C>,
)
    requires
        nodes_relaxed(grid, pm, done),
        !done.contains(a),
        pm.contains_key(a) ==> node.total_cost <= pm[a].total_cost,
    ensures
        nodes_relaxed(grid, pm.insert(a, node), done),
{
    let pm1 = pm.insert(a, node);
    assert forall|y: C, z: C|
        done.contains(y) && #[trigger] y.adjacent_spec(z) && grid.contains_key(z) implies {
        &&& pm1.contains_key(y)
        &&& pm1.contains_key(z)
        &&& pm1[z].total_cost <= pm1[y].total_cost + grid[z].spec_cost()
    } by {
        assert(pm.contains_key(y) && pm.contains_key(z) && pm[z].total_cost <= pm[y].total_cost
            + grid[z].spec_cost());
        assert(y != a);
    }
}

/// Recorded lower bounds survive changes to nodes they do not speak of.
proof fn lemma_lower_bounds_insert<C: TileCoords, T: Tile>(
    grid: Map<C, T>,
    pm: Map<C, PathfindNode<C>>,
    done: Seq<C>,
    extra: Option<C>,
    start: C,
    a: C,
    node: PathfindNode<C>,
)
    requires
        costs_are_lower_bounds(grid, pm, done, extra, start),
        !done.contains(a),
        extra != Some(a),
    ensures
        costs_are_lower_bounds(grid, pm.insert(a, node), done, extra, start),
{
    let pm1 = pm.insert(a, node);
    assert forall|c: C, p: Seq<C>|
        (done.contains(c) || extra == Some(c)) && #[trigger] is_path(grid, p, start, c)
            implies path_cost(grid, p) >= pm1[c].total_cost by {
        assert(c != a);
        assert(pm1[c] == pm[c]);
    }
}

/// Whether a vector of coordinates holds the given one.
fn contains_coord<C: TileCoords>(v: &Vec<C>, c: &C) -> (r: bool)
    ensures
        r == v@.contains(*c),
{
    let n = v.len();
    let mut i: usize = 0;
    while i < n
        invariant
            n == v@.len(),
            i <= n,
            forall|j: int| 0 <= j < i ==> v@[j] != *c,
        decreases n - i,
    {
        if v[i].coords_eq(c) {
            return true;
        }
        i = i + 1;
    }
    proof {
        if v@.contains(*c) {
            let j = choose|j: int| 0 <= j < v@.len() && v@[j] == *c;
            assert(false);
        }
    }
    false
}

/// Walks the predecessor links back from `end` and returns the walk in
/// source-to-destination order. The walk is a valid path whose cost is at
/// most the cost recorded for `end`.
fn build_path<C: TileCoords, T: Tile>(
    path_map: &TileMap<C, PathfindNode<C>>,
    Ghost(grid): Ghost<Map<C, T>>,
    Ghost(done): Ghost<Seq<C>>,
    start: C,
    end: C,
) -> (path: Vec<C>)
    requires
        path_map@.contains_key(end),
        path_map@.contains_key(start),
        path_map@[start].total_cost == 0,
        path_map@[start].from_coords is None,
        preds_ok(grid, path_map@, done, start),
        done.no_duplicates(),
    ensures
        is_path(grid, path@, start, end),
        path_cost(grid, path@) <= path_map@[end].total_cost,
        path@.no_duplicates(),
        start == end ==> path@ =~= seq![start],
{
    let ghost pm = path_map@;
    let mut rev: Vec<C> = Vec::new();
    rev.push(end);
    let mut at = end;
    loop
        invariant
            pm == path_map@,
            pm.contains_key(start),
            pm[start].total_cost == 0,
            pm[start].from_coords is None,
            preds_ok(grid, pm, done, start),
            done.no_duplicates(),
            pm.contains_key(at),
            rev@.len() >= 1,
            rev@[0] == end,
            rev@.last() == at,
            forall|i: int| 0 <= i < rev@.len() - 1 ==> #[trigger] rev@[i + 1].adjacent_spec(rev@[i]),
            forall|i: int| 0 <= i < rev@.len() - 1 ==> grid.contains_key(#[trigger] rev@[i]),
            pm[end].total_cost >= pm[at].total_cost + rev_steps_cost(grid, rev@),
            forall|i: int, j: int|
                0 <= i < j < rev@.len() ==> walk_measure(done, #[trigger] rev@[i]) > walk_measure(
                    done,
                    #[trigger] rev@[j],
                ),
            start == end ==> rev@ =~= seq![start],
        ensures
            at == start,
            rev@.no_duplicates(),
        decreases walk_measure(done, at),
    {
        let ghost at0 = at;
        let node = path_map.get_tile(&at).unwrap();
        match node.from_coords {
            None => {
                proof {
                    // Strictly decreasing walk measures make the collected
                    // coordinates pairwise distinct.
                    assert forall|i: int, j: int|
                        0 <= i < rev@.len() && 0 <= j < rev@.len() && i != j implies rev@[i]
                        != rev@[j] by {
                        if i < j {
                            assert(walk_measure(done, rev@[i]) > walk_measure(done, rev@[j]));
                        } else {
                            assert(walk_measure(done, rev@[j]) > walk_measure(done, rev@[i]));
                        }
                    }
                }
                break ;
            },
            Some(d) => {
                proof {
                    assert(pm.contains_key(at0));
                    assert(pm[at0].from_coords == Some(d));
                    lemma_rev_steps_push(grid, rev@, d);
                    if start == end {
                        assert(at0 == start);
                        assert(false);
                    }
                }
                let ghost rev0 = rev@;
                rev.push(d);
                at = d;
                proof {
                    // The predecessor was finalized strictly earlier, so the
                    // walk measure decreases.
                    assert(done.contains(d));
                    let rd = seq_rank(done, d);
                    assert(0 <= rd < done.len() && done[rd] == d);
                    if done.contains(at0) {
                        let (i, j) = choose|i: int, j: int|
                            0 <= i < j < done.len() && done[i] == d && done[j] == at0;
                        let ra = seq_rank(done, at0);
                        assert(0 <= ra < done.len() && done[ra] == at0);
                        assert(ra == j);
                        assert(rd == i);
                    }
                    assert(walk_measure(done, at0) > walk_measure(done, d));
                    assert forall|i: int, j: int|
                        0 <= i < j < rev@.len() implies walk_measure(done, #[trigger] rev@[i])
                        > walk_measure(done, #[trigger] rev@[j]) by {
                        if j < rev0.len() {
                            assert(rev@[i] == rev0[i] && rev@[j] == rev0[j]);
                        } else {
                            assert(rev@[j] == d);
                            assert(rev@[i] == rev0[i]);
                            if i < rev0.len() - 1 {
                                assert(walk_measure(done, rev0[i]) > walk_measure(
                                    done,
                                    rev0[rev0.len() - 1],
                                ));
                            } else {
                                assert(rev0[i] == at0);
                            }
                        }
                    }
                }
            },
        }
    }
    let n = rev.len();
    let mut path: Vec<C> = Vec::new();
    let mut k = n;
    while k > 0
        invariant
            k <= n,
            n == rev@.len(),
            path@.len() == n - k,
            forall|i: int| 0 <= i < path@.len() ==> path@[i] == rev@[n - 1 - i],
        decreases k,
    {
        k = k - 1;
        let c = rev[k];
        path.push(c);
    }
    proof {
        assert(path@ =~= rev@.reverse());
        lemma_rev_steps_reverse(grid, rev@);
        assert(path@.len() == n);
        assert(path@[0] == rev@[n - 1]);
        assert(path@.last() == rev@[0]);
        assert forall|i: int| 0 <= i < path@.len() - 1 implies #[trigger] path@[i].adjacent_spec(
            path@[i + 1],
        ) by {
            let j = n - 2 - i;
            assert(rev@[j + 1].adjacent_spec(rev@[j]));
            assert(path@[i] == rev@[j + 1]);
            assert(path@[i + 1] == rev@[j]);
        }
        assert forall|i: int| 1 <= i < path@.len() implies grid.contains_key(
            #[trigger] path@[i],
        ) by {
            assert(path@[i] == rev@[n - 1 - i]);
            assert(grid.contains_key(rev@[n - 1 - i]));
        }
        assert(pm[start].total_cost == 0);
        assert(path_cost(grid, path@) == rev_steps_cost(grid, rev@));
        assert forall|a: int, b: int|
            0 <= a < path@.len() && 0 <= b < path@.len() && a != b implies path@[a]
            != path@[b] by {
            assert(path@[a] == rev@[n - 1 - a]);
            assert(path@[b] == rev@[n - 1 - b]);
        }
    }
    path
}

impl<C: TileCoords> Pathfinder<C> {
    /// Finds a path from `start` to `end` coordinates.
    ///
    /// Returns the coordinates of a minimum-total-cost walk from `start` to
    /// `end`, both endpoints included, or `None` when no sequence of adjacent
    /// stored tiles connects them. The cost of a walk is the sum of the costs
    /// of the tiles entered; the start tile itself is never paid for, and the
    /// start coordinate is seeded even when it has no stored tile.
    #[verifier::loop_isolation(false)]
    pub fn find_path<T: Tile>(map: &TileMap<C, T>, start: C, end: C) -> (r: Option<Vec<C>>)
        requires
            start.expandable(),
            forall|c: C| map@.contains_key(c) ==> c.expandable(),
        ensures
            match r {
                Some(path) => {
                    &&& is_path(map@, path@, start, end)
                    &&& path@.no_duplicates()
                    &&& forall|q: Seq<C>| #[trigger]
                        is_path(map@, q, start, end) ==> path_cost(map@, q) >= path_cost(
                            map@,
                            path@,
                        )
                    &&& (start == end ==> path@ =~= seq![start])
                },
                None => {
                    &&& forall|q: Seq<C>| !is_path(map@, q, start, end)
                    &&& start != end
                },
            },
    {
        broadcast use vstd::seq_lib::lemma_seq_contains_after_push;

        let glen = map.len();
        let mut path_map: TileMap<C, PathfindNode<C>> = TileMap::new();
        path_map.insert_tile(start, PathfindNode { total_cost: 0, from_coords: None });
        let mut coords_to_search: Vec<C> = Vec::new();
        let mut searched_coords: Vec<C> = Vec::new();
        let mut test_coords_opt: Option<C> = Some(start);

        proof {
            assert forall|c: C, p: Seq<C>|
                (searched_coords@.contains(c) || test_coords_opt == Some(c))
                    && #[trigger] is_path(map@, p, start, c) implies path_cost(map@, p)
                >= path_map@[c].total_cost by {
                lemma_path_cost_nonneg(map@, p);
            }
        }

        while test_coords_opt.is_some()
            invariant
                path_map@.contains_key(start),
                path_map@[start].total_cost == 0,
                path_map@[start].from_coords is None,
                searched_coords@.no_duplicates(),
                coords_to_search@.no_duplicates(),
                forall|c: C| #[trigger]
                    coords_to_search@.contains(c) ==> path_map@.contains_key(c)
                        && !searched_coords@.contains(c),
                forall|c: C| #[trigger] searched_coords@.contains(c) ==> path_map@.contains_key(c),
                forall|c: C| #[trigger]
                    path_map@.contains_key(c) ==> map@.contains_key(c) || c == start,
                test_coords_opt matches Some(cur) ==> {
                    &&& path_map@.contains_key(cur)
                    &&& !searched_coords@.contains(cur)
                    &&& !coords_to_search@.contains(cur)
                    &&& (searched_coords@.len() == 0 ==> cur == start)
                },
                test_coords_opt matches Some(cur) ==> forall|c: C| #[trigger]
                    path_map@.contains_key(c) ==> searched_coords@.contains(c)
                        || coords_to_search@.contains(c) || c == cur,
                test_coords_opt is None ==> {
                    &&& coords_to_search@.len() == 0
                    &&& searched_coords@.len() >= 1
                    &&& forall|c: C| #[trigger]
                        path_map@.contains_key(c) ==> searched_coords@.contains(c)
                },
                searched_coords@.len() >= 1 ==> searched_coords@[0] == start,
                preds_ok(map@, path_map@, searched_coords@, start),
                forall|c: C| #[trigger]
                    path_map@.contains_key(c) ==> path_map@[c].total_cost <= searched_coords@.len()
                        * (u64::MAX as int),
                costs_are_lower_bounds(map@, path_map@, searched_coords@, test_coords_opt, start),
                nodes_relaxed(map@, path_map@, searched_coords@),
                forall|c: C| #[trigger] searched_coords@.contains(c) ==> c != end,
                start == end ==> searched_coords@.len() == 0,
                searched_coords@.len() <= map@.dom().len() + 1,
                test_coords_opt matches Some(cur) ==> forall|s: C| #[trigger]
                    searched_coords@.contains(s) ==> path_map@[s].total_cost
                        <= path_map@[cur].total_cost,
                test_coords_opt matches Some(cur) ==> forall|f: C| #[trigger]
                    coords_to_search@.contains(f) ==> path_map@[cur].total_cost
                        <= path_map@[f].total_cost,
                forall|s: C, f: C|
                    #![trigger searched_coords@.contains(s), coords_to_search@.contains(f)]
                    searched_coords@.contains(s) && coords_to_search@.contains(f)
                        ==> path_map@[s].total_cost <= path_map@[f].total_cost,
            decreases map@.dom().len() + 1 - searched_coords@.len(),
        {
            let test_coords = test_coords_opt.unwrap();
            proof {
                assert(test_coords_opt == Some(test_coords));
            }

            if test_coords.coords_eq(&end) {
                let path = build_path::<C, T>(
                    &path_map,
                    Ghost(map@),
                    Ghost(searched_coords@),
                    start,
                    test_coords,
                );
                proof {
                    assert forall|q: Seq<C>| #[trigger]
                        is_path(map@, q, start, end) implies path_cost(map@, q) >= path_cost(
                        map@,
                        path@,
                    ) by {
                        assert(is_path(map@, q, start, test_coords));
                        assert(path_cost(map@, q) >= path_map@[test_coords].total_cost);
                    }
                }
                return Some(path);
            }

            proof {
                // Had the search started at its own destination, it would
                // have returned just above.
                if start == end {
                    assert(test_coords == start);
                    assert(false);
                }
            }

            let adjacent = test_coords.adjacent_coords();
            let test_cost: u128 = path_map.get_tile(&test_coords).unwrap().total_cost;
            let ghost pm0 = path_map@;
            let ghost s_orig = searched_coords@;

            proof {
                assert(test_cost <= searched_coords@.len() * (u64::MAX as int));
                lemma_mul_inequality(
                    searched_coords@.len() as int,
                    map@.dom().len() as int + 1,
                    u64::MAX as int,
                );
                lemma_mul_inequality(
                    map@.dom().len() as int + 1,
                    0x1_0000_0000_0000_0000,
                    u64::MAX as int,
                );
                assert(test_cost + (u64::MAX as int) <= u128::MAX as int);
                lemma_preds_ok_extend(map@, path_map@, searched_coords@, test_coords, start);
            }

            let mut ai: usize = 0;
            while ai < adjacent.len()
                invariant
                    ai <= adjacent@.len(),
                    forall|c: C| #[trigger]
                        path_map@.contains_key(c) ==> s_orig.contains(c)
                            || coords_to_search@.contains(c) || c == test_coords,
                    forall|c: C| #[trigger]
                        coords_to_search@.contains(c) ==> path_map@.contains_key(c)
                            && !s_orig.contains(c) && c != test_coords,
                    coords_to_search@.no_duplicates(),
                    forall|c: C| #[trigger]
                        path_map@.contains_key(c) ==> map@.contains_key(c) || c == start,
                    forall|c: C| #[trigger] s_orig.contains(c) ==> path_map@.contains_key(c),
                    forall|c: C| #[trigger] s_orig.contains(c) ==> path_map@[c] == pm0[c],
                    path_map@.contains_key(test_coords),
                    path_map@[test_coords] == pm0[test_coords],
                    forall|c: C| #[trigger]
                        path_map@.contains_key(c) ==> path_map@[c].total_cost <= (s_orig.len() + 1)
                            * (u64::MAX as int),
                    path_map@.contains_key(start),
                    path_map@[start].total_cost == 0,
                    path_map@[start].from_coords is None,
                    forall|s: C| #[trigger]
                        s_orig.contains(s) ==> path_map@[s].total_cost <= test_cost,
                    forall|f: C| #[trigger]
                        coords_to_search@.contains(f) ==> test_cost <= path_map@[f].total_cost,
                    preds_ok(map@, path_map@, s_orig.push(test_coords), start),
                    nodes_relaxed(map@, path_map@, s_orig),
                    costs_are_lower_bounds(map@, path_map@, s_orig, Some(test_coords), start),
                    forall|j: int|
                        0 <= j < ai && map@.contains_key(#[trigger] adjacent@[j])
                            ==> path_map@.contains_key(adjacent@[j])
                            && path_map@[adjacent@[j]].total_cost <= test_cost
                            + map@[adjacent@[j]].spec_cost(),
                decreases adjacent@.len() - ai,
            {
                let adjacent_coord = adjacent[ai];
                match map.get_tile(&adjacent_coord) {
                    None => {},
                    Some(tile) => {
                        let tile_cost: u64 = tile.pathfind_cost();
                        let cand: u128 = test_cost + (tile_cost as u128);
                        proof {
                            assert(test_coords.adjacent_spec(adjacent_coord));
                            assert(cand >= test_cost);
                            assert(cand >= path_map@[test_coords].total_cost + map@[
                                adjacent_coord].spec_cost());
                        }
                        if path_map.contains_coords(&adjacent_coord) {
                            // Finalized coordinates are never reopened, nor
                            // their records revised: with non-negative costs
                            // no cheaper route to them can appear later.
                            if !contains_coord(&searched_coords, &adjacent_coord) {
                                let best = path_map.get_tile(&adjacent_coord).unwrap().total_cost;
                                if cand < best {
                                    proof {
                                        assert(adjacent_coord != test_coords);
                                        assert(adjacent_coord != start);
                                        lemma_preds_ok_insert(
                                            map@,
                                            path_map@,
                                            s_orig.push(test_coords),
                                            start,
                                            adjacent_coord,
                                            PathfindNode {
                                                total_cost: cand,
                                                from_coords: Some(test_coords),
                                            },
                                            test_coords,
                                        );
                                        lemma_relaxed_insert(
                                            map@,
                                            path_map@,
                                            s_orig,
                                            adjacent_coord,
                                            PathfindNode {
                                                total_cost: cand,
                                                from_coords: Some(test_coords),
                                            },
                                        );
                                        lemma_lower_bounds_insert(
                                            map@,
                                            path_map@,
                                            s_orig,
                                            Some(test_coords),
                                            start,
                                            adjacent_coord,
                                            PathfindNode {
                                                total_cost: cand,
                                                from_coords: Some(test_coords),
                                            },
                                        );
                                    }
                                    path_map.insert_tile(
                                        adjacent_coord,
                                        PathfindNode {
                                            total_cost: cand,
                                            from_coords: Some(test_coords),
                                        },
                                    );
                                }
                            }
                        } else {
                            proof {
                                assert(adjacent_coord != test_coords);
                                assert(adjacent_coord != start);
                                assert(!s_orig.contains(adjacent_coord));
                                assert(!coords_to_search@.contains(adjacent_coord));
                                lemma_preds_ok_insert(
                                    map@,
                                    path_map@,
                                    s_orig.push(test_coords),
                                    start,
                                    adjacent_coord,
                                    PathfindNode { total_cost: cand, from_coords: Some(
                                        test_coords,
                                    ) },
                                    test_coords,
                                );
                                lemma_relaxed_insert(
                                    map@,
                                    path_map@,
                                    s_orig,
                                    adjacent_coord,
                                    PathfindNode { total_cost: cand, from_coords: Some(
                                        test_coords,
                                    ) },
                                );
                                lemma_lower_bounds_insert(
                                    map@,
                                    path_map@,
                                    s_orig,
                                    Some(test_coords),
                                    start,
                                    adjacent_coord,
                                    PathfindNode { total_cost: cand, from_coords: Some(
                                        test_coords,
                                    ) },
                                );
                            }
                            path_map.insert_tile(
                                adjacent_coord,
                                PathfindNode { total_cost: cand, from_coords: Some(test_coords) },
                            );
                            coords_to_search.push(adjacent_coord);
                        }
                    },
                }
                ai = ai + 1;
            }

            searched_coords.push(test_coords);

            proof {
                assert(searched_coords@ == s_orig.push(test_coords));
                assert(searched_coords@[0] == start) by {
                    if s_orig.len() == 0 {
                    } else {
                        assert(searched_coords@[0] == s_orig[0]);
                    }
                }
                lemma_searched_bound(searched_coords@, map@.dom(), start);
                assert forall|y: C, z: C|
                    searched_coords@.contains(y) && #[trigger] y.adjacent_spec(z)
                        && map@.contains_key(z) implies {
                    &&& path_map@.contains_key(y)
                    &&& path_map@.contains_key(z)
                    &&& path_map@[z].total_cost <= path_map@[y].total_cost + map@[z].spec_cost()
                } by {
                    if s_orig.contains(y) {
                    } else {
                        assert(y == test_coords);
                        assert(adjacent@.contains(z));
                        let j = choose|j: int| 0 <= j < adjacent@.len() && adjacent@[j] == z;
                        assert(map@.contains_key(adjacent@[j]));
                    }
                }
                assert(nodes_relaxed(map@, path_map@, searched_coords@));
            }

            if coords_to_search.len() == 0 {
                test_coords_opt = None;
            } else {
                let mut best_idx: usize = 0;
                proof {
                    assert(coords_to_search@.contains(coords_to_search@[0]));
                }
                let mut best_cost: u128 = path_map.get_tile(
                    &coords_to_search[0],
                ).unwrap().total_cost;
                let mut bi: usize = 1;
                while bi < coords_to_search.len()
                    invariant
                        1 <= bi <= coords_to_search@.len(),
                        (best_idx as int) < bi,
                        path_map@.contains_key(coords_to_search@[best_idx as int]),
                        best_cost == path_map@[coords_to_search@[best_idx as int]].total_cost,
                        forall|j: int|
                            0 <= j < bi ==> path_map@[#[trigger] coords_to_search@[j]].total_cost
                                >= best_cost,
                    decreases coords_to_search@.len() - bi,
                {
                    proof {
                        assert(coords_to_search@.contains(coords_to_search@[bi as int]));
                    }
                    let c_cost = path_map.get_tile(&coords_to_search[bi]).unwrap().total_cost;
                    if c_cost < best_cost {
                        best_idx = bi;
                        best_cost = c_cost;
                    }
                    bi = bi + 1;
                }
                let ghost f0 = coords_to_search@;
                let next = coords_to_search.remove(best_idx);
                test_coords_opt = Some(next);
                proof {
                    f0.remove_ensures(best_idx as int);
                    assert(next == f0[best_idx as int]);
                    assert(f0.contains(next));
                    assert(coords_to_search@ == f0.remove(best_idx as int));
                    // The remaining frontier holds exactly the other old
                    // frontier coordinates.
                    assert forall|c: C| #[trigger]
                        coords_to_search@.contains(c) implies f0.contains(c) && c != next by {
                        let j = choose|j: int|
                            0 <= j < coords_to_search@.len() && coords_to_search@[j] == c;
                        if j < best_idx {
                            assert(f0[j] == c);
                        } else {
                            assert(f0[j + 1] == c);
                        }
                    }
                    assert forall|c: C|
                        f0.contains(c) && c != next implies #[trigger] coords_to_search@.contains(
                        c,
                    ) by {
                        let j = choose|j: int| 0 <= j < f0.len() && f0[j] == c;
                        assert(j != best_idx);
                        if j < best_idx {
                            assert(coords_to_search@[j] == c);
                        } else {
                            assert(coords_to_search@[j - 1] == c);
                        }
                    }
                    assert(coords_to_search@.no_duplicates()) by {
                        assert forall|a: int, b: int|
                            0 <= a < coords_to_search@.len() && 0 <= b < coords_to_search@.len()
                                && a != b implies coords_to_search@[a] != coords_to_search@[b] by {
                            let a0: int = if a < best_idx {
                                a
                            } else {
                                a + 1
                            };
                            let b0: int = if b < best_idx {
                                b
                            } else {
                                b + 1
                            };
                            assert(coords_to_search@[a] == f0[a0]);
                            assert(coords_to_search@[b] == f0[b0]);
                        }
                    }
                    // The chosen coordinate is the cheapest the search has
                    // discovered but not finalized, so its recorded cost is a
                    // lower bound on every walk that reaches it.
                    assert(searched_coords@.contains(start)) by {
                        assert(searched_coords@[0] == start);
                    }
                    assert forall|p: Seq<C>| #[trigger]
                        is_path(map@, p, start, next) implies path_cost(map@, p)
                        >= path_map@[next].total_cost by {
                        lemma_path_exit_cost(
                            map@,
                            path_map@,
                            searched_coords@,
                            start,
                            next,
                            p,
                        );
                        let z = choose|z: C|
                            #[trigger] path_map@.contains_key(z) && !searched_coords@.contains(z)
                                && path_map@[z].total_cost <= path_cost(map@, p);
                        assert(path_map@.contains_key(z) && !searched_coords@.contains(z));
                        assert(f0.contains(z));
                        let j = choose|j: int| 0 <= j < f0.len() && f0[j] == z;
                        assert(path_map@[f0[j]].total_cost >= best_cost);
                    }
                }
            }
        }
        proof {
            assert forall|q: Seq<C>| !is_path(map@, q, start, end) by {
                if is_path(map@, q, start, end) {
                    assert(searched_coords@.contains(start)) by {
                        assert(searched_coords@[0] == start);
                    }
                    assert(!searched_coords@.contains(end));
                    lemma_path_exit_cost(map@, path_map@, searched_coords@, start, end, q);
                    let z = choose|z: C|
                        #[trigger] path_map@.contains_key(z) && !searched_coords@.contains(z)
                            && path_map@[z].total_cost <= path_cost(map@, q);
                    assert(path_map@.contains_key(z) && !searched_coords@.contains(z));
                    assert(false);
                }
            }
        }
        None
    }
}

} // verus!

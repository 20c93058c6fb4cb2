//! The incremental grid: each new point is compared with the points of the
//! nine cells around it, and the whole grid is built anew whenever the best
//! distance shrinks.
use vstd::prelude::*;
use std::collections::HashMap;

use super::{
    lemma_gap_below_sq_dist, lemma_square_monotone, lemma_sq_dist_symmetric,
    is_closest, is_pair_of, sq_dist_at, ClosestPair, ClosestPairAlgorithm, vertical, Color, Drawing, PairError,
    Point,
};

verus! {

broadcast use vstd::std_specs::hash::group_hash_axioms;

/// Grid with a growable list of point indices in each cell.
pub struct GridAlgorithm;

/// The cell of a point: its coordinates, shifted to be non-negative, divided
/// by the side of a cell and rounded down.
#[derive(Clone, Copy, Debug, PartialEq, Eq, Structural)]
pub struct CellKey {
    pub x: i64,
    pub y: i64,
}

/// Shifts a coordinate so that every `i32` lands in `0 .. 2^32`.
pub open spec fn shifted(c: i32) -> int {
    c + 0x8000_0000
}

/// The cell column and row of `p` in a grid whose cells have side `side`.
pub open spec fn cell_of(p: Point, side: int) -> (int, int) {
    (shifted(p.x) / side, shifted(p.y) / side)
}

/// The number under which the cell `(cx, cy)` is kept in the map.
pub open spec fn slot(cx: int, cy: int) -> int {
    cx * 0x1_0000_0000 + cy
}

/// The number of the cell of `p`.
pub open spec fn slot_of(p: Point, side: int) -> int {
    slot(cell_of(p, side).0, cell_of(p, side).1)
}

/// One step from coordinate `c`: `-1`, `0` or `1`, wrapping at the ends.
pub open spec fn step(c: i64, d: int) -> i64 {
    if d < 0 {
        c.wrapping_sub(1)
    } else if d > 0 {
        c.wrapping_add(1)
    } else {
        c
    }
}

impl CellKey {
    /// The cell of `point` in a grid of cells of side `side`.
    pub fn new(point: &Point, side: u64) -> (r: CellKey)
        requires
            side >= 1,
        ensures
            r.x == cell_of(*point, side as int).0,
            r.y == cell_of(*point, side as int).1,
            0 <= r.x < 0x1_0000_0000,
            0 <= r.y < 0x1_0000_0000,
    {
        let sx: u64 = (point.x as i64 + 0x8000_0000i64) as u64;
        let sy: u64 = (point.y as i64 + 0x8000_0000i64) as u64;
        proof {
            vstd::arithmetic::div_mod::lemma_div_is_ordered_by_denominator(sx as int, 1, side as int);
            vstd::arithmetic::div_mod::lemma_div_is_ordered_by_denominator(sy as int, 1, side as int);
            vstd::arithmetic::div_mod::lemma_div_basics(sx as int);
            vstd::arithmetic::div_mod::lemma_div_basics(sy as int);
            vstd::arithmetic::div_mod::lemma_div_pos_is_pos(sx as int, side as int);
            vstd::arithmetic::div_mod::lemma_div_pos_is_pos(sy as int, side as int);
        }
        CellKey { x: (sx / side) as i64, y: (sy / side) as i64 }
    }

    /// The nine cells around this one, itself included, column by column.
    pub fn nearbys(&self) -> (r: [CellKey; 9])
        ensures
            forall|t: int|
                0 <= t < 9 ==> #[trigger] r[t] == (CellKey {
                    x: step(self.x, t / 3 - 1),
                    y: step(self.y, t % 3 - 1),
                }),
    {
        let xs = [self.x.wrapping_sub(1), self.x, self.x.wrapping_add(1)];
        let ys = [self.y.wrapping_sub(1), self.y, self.y.wrapping_add(1)];
        let r = [
            CellKey { x: xs[0], y: ys[0] },
            CellKey { x: xs[0], y: ys[1] },
            CellKey { x: xs[0], y: ys[2] },
            CellKey { x: xs[1], y: ys[0] },
            CellKey { x: xs[1], y: ys[1] },
            CellKey { x: xs[1], y: ys[2] },
            CellKey { x: xs[2], y: ys[0] },
            CellKey { x: xs[2], y: ys[1] },
            CellKey { x: xs[2], y: ys[2] },
        ];
        proof {
            assert forall|t: int| 0 <= t < 9 implies #[trigger] r[t] == (CellKey {
                x: step(self.x, t / 3 - 1),
                y: step(self.y, t % 3 - 1),
            }) by {
                assert(t == 0 || t == 1 || t == 2 || t == 3 || t == 4 || t == 5 || t == 6 || t == 7 || t == 8);
            }
        }
        r
    }

    /// The number of this cell in the map, when it is a cell that a point
    /// can fall in.
    pub fn slot(&self) -> (r: Option<u64>)
        ensures
            r matches Some(s) ==> s == slot(self.x as int, self.y as int),
            r is None <==> !(0 <= self.x < 0x1_0000_0000 && 0 <= self.y < 0x1_0000_0000),
    {
        if 0 <= self.x && self.x < 0x1_0000_0000 && 0 <= self.y && self.y < 0x1_0000_0000 {
            Some(self.x as u64 * 0x1_0000_0000u64 + self.y as u64)
        } else {
            None
        }
    }
}

/// Numbers closer than `side` fall in the same or in adjacent columns.
pub proof fn lemma_near_columns(a: int, b: int, side: int)
    requires
        a >= 0,
        b >= 0,
        side >= 1,
        (a - b) * (a - b) < side * side,
    ensures
        -1 <= a / side - b / side <= 1,
{
    if a - b >= side {
        lemma_square_monotone(side, a - b);
    }
    if b - a >= side {
        lemma_square_monotone(side, b - a);
        assert((a - b) * (a - b) == (b - a) * (b - a)) by (nonlinear_arith);
    }
    vstd::arithmetic::div_mod::lemma_fundamental_div_mod(a, side);
    vstd::arithmetic::div_mod::lemma_fundamental_div_mod(b, side);
    vstd::arithmetic::div_mod::lemma_mod_bound(a, side);
    vstd::arithmetic::div_mod::lemma_mod_bound(b, side);
    let qa = a / side;
    let qb = b / side;
    if qa >= qb + 2 {
        assert(side * qa >= side * qb + 2 * side) by (nonlinear_arith)
            requires qa >= qb + 2, side >= 1;
    }
    if qb >= qa + 2 {
        assert(side * qb >= side * qa + 2 * side) by (nonlinear_arith)
            requires qb >= qa + 2, side >= 1;
    }
}

/// The smallest `s` with `s * s >= d`: the side of a cell for a best
/// squared distance `d`.
pub fn ceil_sqrt(d: u128) -> (s: u64)
    requires
        1 <= d <= 0x4_0000_0000_0000_0000,
    ensures
        s >= 1,
        s * s >= d,
        (s - 1) * (s - 1) < d,
{
    let mut lo: u64 = 0;
    let mut hi: u64 = 0x2_0000_0000;
    assert(0x2_0000_0000u64 * 0x2_0000_0000u64 == 0x4_0000_0000_0000_0000) by (nonlinear_arith);
    while hi - lo > 1
        invariant
            lo < hi <= 0x2_0000_0000,
            lo * lo < d,
            hi * hi >= d,
        decreases hi - lo,
    {
        let mid: u64 = lo + (hi - lo) / 2;
        proof {
            lemma_square_monotone(mid as int, 0x2_0000_0000);
        }
        if (mid as u128) * (mid as u128) >= d {
            hi = mid;
        } else {
            lo = mid;
        }
    }
    hi
}

/// Every index in the cell numbered `k` is below `n` and names a point of
/// that cell.
pub open spec fn cell_valid(pts: Seq<Point>, cell: Seq<usize>, side: int, n: int, k: u64) -> bool {
    forall|t: int|
        0 <= t < cell.len() ==> #[trigger] cell[t] < n && cell[t] < pts.len() && slot_of(
            pts[cell[t] as int],
            side,
        ) == k
}

/// The grid holds the indices below `n`, each in the cell of its point.
pub open spec fn grid_holds<B: View<V = Seq<usize>>>(
    pts: Seq<Point>,
    m: Map<u64, B>,
    side: int,
    n: int,
) -> bool {
    &&& forall|k: u64| #[trigger] m.contains_key(k) ==> cell_valid(pts, m[k]@, side, n, k)
    &&& forall|j: int| 0 <= j < n ==> #[trigger] cell_has(m, slot_of(pts[j], side) as u64, j as usize)
}

/// The cell numbered `k` exists and holds index `j`.
pub open spec fn cell_has<B: View<V = Seq<usize>>>(m: Map<u64, B>, k: u64, j: usize) -> bool {
    m.contains_key(k) && m[k]@.contains(j)
}

/// The grid after `i` joins the cell numbered `k` of its point.
pub proof fn lemma_grid_add<B: View<V = Seq<usize>>>(
    pts: Seq<Point>,
    m: Map<u64, B>,
    side: int,
    i: int,
    k: u64,
    cell: B,
)
    requires
        grid_holds(pts, m, side, i),
        0 <= i < pts.len(),
        i <= usize::MAX,
        k == slot_of(pts[i], side),
        cell@ == (if m.contains_key(k) { m[k]@ } else { Seq::<usize>::empty() }).push(i as usize),
    ensures
        grid_holds(pts, m.insert(k, cell), side, i + 1),
{
    let m2 = m.insert(k, cell);
    let old_cell = if m.contains_key(k) { m[k]@ } else { Seq::<usize>::empty() };
    assert forall|q: u64| #[trigger] m2.contains_key(q) implies cell_valid(pts, m2[q]@, side, i + 1, q) by {
        if q == k {
            assert forall|t: int| 0 <= t < cell@.len() implies #[trigger] cell@[t] < i + 1 && cell@[t]
                < pts.len() && slot_of(pts[cell@[t] as int], side) == q by {
                if t < old_cell.len() {
                    assert(cell@[t] == old_cell[t]);
                }
            }
        } else {
            assert(m.contains_key(q));
        }
    }
    assert forall|j: int| 0 <= j < i + 1 implies #[trigger] cell_has(m2, slot_of(pts[j], side) as u64, j as usize) by {
        if j < i {
            assert(cell_has(m, slot_of(pts[j], side) as u64, j as usize));
            if slot_of(pts[j], side) as u64 == k {
                let w = choose|w: int| 0 <= w < old_cell.len() && old_cell[w] == j as usize;
                assert(cell@[w] == j as usize);
            }
        } else {
            assert(slot_of(pts[i], side) as u64 == k);
            assert(cell@[old_cell.len() as int] == i as usize);
        }
    }
}

/// The number of the cell of `point`, computed.
pub fn slot_of_point(point: &Point, side: u64) -> (r: u64)
    requires
        side >= 1,
    ensures
        r == slot_of(*point, side as int),
{
    let key = CellKey::new(point, side);
    let s = key.slot();
    match s {
        Some(v) => v,
        None => 0,
    }
}

/// Every cell holds at least one index, and its indices rise strictly: each
/// index is held once, in the order the points were given.
pub open spec fn grid_tidy<B: View<V = Seq<usize>>>(m: Map<u64, B>) -> bool {
    forall|k: u64|
        #[trigger] m.contains_key(k) ==> m[k]@.len() > 0 && forall|s: int, t: int|
            0 <= s < t < m[k]@.len() ==> #[trigger] m[k]@[s] < #[trigger] m[k]@[t]
}

/// Appending an index above all held ones keeps the grid tidy.
pub proof fn lemma_tidy_add<B: View<V = Seq<usize>>>(
    pts: Seq<Point>,
    m: Map<u64, B>,
    side: int,
    i: int,
    k: u64,
    cell: B,
)
    requires
        grid_tidy(m),
        grid_holds(pts, m, side, i),
        cell@ == (if m.contains_key(k) { m[k]@ } else { Seq::<usize>::empty() }).push(i as usize),
        0 <= i <= usize::MAX,
    ensures
        grid_tidy(m.insert(k, cell)),
{
    let m2 = m.insert(k, cell);
    let old_cell = if m.contains_key(k) { m[k]@ } else { Seq::<usize>::empty() };
    assert forall|q: u64| #[trigger] m2.contains_key(q) implies m2[q]@.len() > 0 && forall|s: int, t: int|
        0 <= s < t < m2[q]@.len() ==> #[trigger] m2[q]@[s] < #[trigger] m2[q]@[t] by {
        if q == k {
            if m.contains_key(k) {
                assert(cell_valid(pts, m[k]@, side, i, k));
            }
            assert forall|s: int, t: int| 0 <= s < t < cell@.len() implies #[trigger] cell@[s] < #[trigger] cell@[t] by {
                if t < old_cell.len() {
                    assert(old_cell[s] < old_cell[t]);
                } else {
                    assert(old_cell[s] < i);
                }
            }
        } else {
            assert(m.contains_key(q));
        }
    }
}

/// Puts index `i` into the cell numbered `k`.
pub fn add_to_grid(grid: &mut HashMap<u64, Vec<usize>>, k: u64, i: usize)
    ensures
        final(grid)@.contains_key(k),
        final(grid)@ == old(grid)@.insert(k, final(grid)@[k]),
        final(grid)@[k]@ == (if old(grid)@.contains_key(k) { old(grid)@[k]@ } else {
            Seq::<usize>::empty()
        }).push(i),
{
    let cell = grid.remove(&k);
    match cell {
        Some(mut v) => {
            v.push(i);
            grid.insert(k, v);
        },
        None => {
            let mut v: Vec<usize> = Vec::new();
            v.push(i);
            grid.insert(k, v);
        },
    }
    proof {
        assert(final(grid)@ =~= old(grid)@.insert(k, final(grid)@[k]));
    }
}

/// A grid of cells of side `side` over the points with indices below `n`.
pub fn create_grid(points: &[Point], n: usize, side: u64) -> (r: HashMap<u64, Vec<usize>>)
    requires
        n <= points@.len(),
        side >= 1,
    ensures
        grid_holds(points@, r@, side as int, n as int),
        grid_tidy(r@),
        forall|j: int, k: u64|
            0 <= j < n && r@.contains_key(k) && #[trigger] r@[k]@.contains(j as usize) ==> k == slot_of(
                points@[j],
                side as int,
            ),
{
    let mut grid: HashMap<u64, Vec<usize>> = HashMap::new();
    let mut i: usize = 0;
    while i < n
        invariant
            n <= points@.len(),
            side >= 1,
            i <= n,
            grid_holds(points@, grid@, side as int, i as int),
            grid_tidy(grid@),
        decreases n - i,
    {
        let k = slot_of_point(&points[i], side);
        let ghost g0 = grid@;
        add_to_grid(&mut grid, k, i);
        proof {
            lemma_grid_add(points@, g0, side as int, i as int, k, grid@[k]);
            lemma_tidy_add(points@, g0, side as int, i as int, k, grid@[k]);
        }
        i = i + 1;
    }
    proof {
        assert forall|j: int, k: u64|
            0 <= j < n && grid@.contains_key(k) && #[trigger] grid@[k]@.contains(j as usize) implies k == slot_of(
                points@[j],
                side as int,
            ) by {
            assert(cell_valid(points@, grid@[k]@, side as int, n as int, k));
            let t = choose|t: int| 0 <= t < grid@[k]@.len() && grid@[k]@[t] == j as usize;
            assert(slot_of(points@[grid@[k]@[t] as int], side as int) == k);
        }
    }
    grid
}

/// No two distinct points among the first `n` are closer than `d` (squared).
pub open spec fn no_pair_below_upto(pts: Seq<Point>, n: int, d: int) -> bool {
    forall|a: int, b: int| 0 <= a < n && 0 <= b < n && a != b ==> d <= #[trigger] sq_dist_at(pts, a, b)
}

/// A bound on the first `i` points and on the pairs that point `i` makes
/// with them is a bound on the first `i + 1` points.
pub proof fn lemma_extend_bound(pts: Seq<Point>, i: int, d: int)
    requires
        0 <= i < pts.len(),
        no_pair_below_upto(pts, i, d),
        forall|j: int| 0 <= j < i ==> d <= #[trigger] sq_dist_at(pts, j, i),
    ensures
        no_pair_below_upto(pts, i + 1, d),
{
    assert forall|a: int, b: int| 0 <= a < i + 1 && 0 <= b < i + 1 && a != b implies d
        <= #[trigger] sq_dist_at(pts, a, b) by {
        if a == i {
            lemma_sq_dist_symmetric(pts[a], pts[b]);
            assert(d <= sq_dist_at(pts, b, i));
        } else if b == i {
            assert(d <= sq_dist_at(pts, a, i));
        }
    }
}

/// Where point `j` lies among the nine cells around point `i`: the position
/// of its cell in the order of `nearbys`.
pub open spec fn cell_rank(pts: Seq<Point>, side: int, j: int, i: int) -> int {
    (cell_of(pts[j], side).0 - cell_of(pts[i], side).0 + 1) * 3 + (cell_of(pts[j], side).1 - cell_of(
        pts[i],
        side,
    ).1 + 1)
}

/// A point closer to point `i` than the side of a cell lies in one of the
/// nine cells around it.
pub proof fn lemma_close_is_nearby(pts: Seq<Point>, side: int, j: int, i: int)
    requires
        0 <= j < pts.len(),
        0 <= i < pts.len(),
        side >= 1,
        sq_dist_at(pts, j, i) < side * side,
    ensures
        -1 <= cell_of(pts[j], side).0 - cell_of(pts[i], side).0 <= 1,
        -1 <= cell_of(pts[j], side).1 - cell_of(pts[i], side).1 <= 1,
        0 <= cell_rank(pts, side, j, i) < 9,
        cell_rank(pts, side, j, i) / 3 - 1 == cell_of(pts[j], side).0 - cell_of(pts[i], side).0,
        cell_rank(pts, side, j, i) % 3 - 1 == cell_of(pts[j], side).1 - cell_of(pts[i], side).1,
{
    lemma_gap_below_sq_dist(pts[j], pts[i]);
    lemma_near_columns(shifted(pts[j].x), shifted(pts[i].x), side);
    lemma_near_columns(shifted(pts[j].y), shifted(pts[i].y), side);
}

/// The cell of every point lies within `0 .. 2^32` along both axes.
pub proof fn lemma_cell_in_range(p: Point, side: int)
    requires
        side >= 1,
    ensures
        0 <= cell_of(p, side).0 < 0x1_0000_0000,
        0 <= cell_of(p, side).1 < 0x1_0000_0000,
        0 <= slot_of(p, side) <= u64::MAX,
{
    vstd::arithmetic::div_mod::lemma_div_is_ordered_by_denominator(shifted(p.x), 1, side);
    vstd::arithmetic::div_mod::lemma_div_is_ordered_by_denominator(shifted(p.y), 1, side);
    vstd::arithmetic::div_mod::lemma_div_basics(shifted(p.x));
    vstd::arithmetic::div_mod::lemma_div_basics(shifted(p.y));
    vstd::arithmetic::div_mod::lemma_div_pos_is_pos(shifted(p.x), side);
    vstd::arithmetic::div_mod::lemma_div_pos_is_pos(shifted(p.y), side);
    let cx = cell_of(p, side).0;
    assert(cx * 0x1_0000_0000 <= 0xffff_ffff * 0x1_0000_0000) by (nonlinear_arith)
        requires 0 <= cx <= 0xffff_ffff;
    assert(cx * 0x1_0000_0000 >= 0) by (nonlinear_arith)
        requires 0 <= cx;
}

/// Compares point `i` with every point in the nine cells around its own and
/// returns the closest of them, the first one met on ties, if any.
pub fn nearest_in_cells(points: &[Point], grid: &HashMap<u64, Vec<usize>>, i: usize, side: u64) -> (r:
    Option<ClosestPair>)
    requires
        i < points@.len(),
        side >= 1,
        grid_holds(points@, grid@, side as int, i as int),
    ensures
        r matches Some(c) ==> c.point_a < i && c.point_b == i && c.squared_distance == sq_dist_at(
            points@,
            c.point_a as int,
            i as int,
        ),
        forall|j: int|
            0 <= j < i && #[trigger] sq_dist_at(points@, j, i as int) < side * side ==> (r matches Some(c)
                && c.squared_distance <= sq_dist_at(points@, j, i as int)),
{
    let key = CellKey::new(&points[i], side);
    let nearbys = key.nearbys();
    let mut best: Option<ClosestPair> = None;
    let mut t: usize = 0;
    while t < 9
        invariant
            i < points@.len(),
            side >= 1,
            grid_holds(points@, grid@, side as int, i as int),
            key.x == cell_of(points@[i as int], side as int).0,
            key.y == cell_of(points@[i as int], side as int).1,
            forall|u: int|
                0 <= u < 9 ==> #[trigger] nearbys[u] == (CellKey {
                    x: step(key.x, u / 3 - 1),
                    y: step(key.y, u % 3 - 1),
                }),
            t <= 9,
            best matches Some(c) ==> c.point_a < i && c.point_b == i && c.squared_distance == sq_dist_at(
                points@,
                c.point_a as int,
                i as int,
            ),
            forall|j: int|
                0 <= j < i && #[trigger] sq_dist_at(points@, j, i as int) < side * side && 0 <= cell_rank(
                    points@,
                    side as int,
                    j,
                    i as int,
                ) < t ==> (best matches Some(c) && c.squared_distance <= sq_dist_at(points@, j, i as int)),
        decreases 9 - t,
    {
        let here = nearbys[t];
        let found = match here.slot() {
            Some(k) => grid.get(&k),
            None => None,
        };
        proof {
            lemma_cell_in_range(points@[i as int], side as int);
            assert forall|j: int|
                0 <= j < i && #[trigger] sq_dist_at(points@, j, i as int) < side * side && cell_rank(
                    points@,
                    side as int,
                    j,
                    i as int,
                ) == t implies found is Some && found->0@.contains(j as usize) by {
                lemma_close_is_nearby(points@, side as int, j, i as int);
                lemma_cell_in_range(points@[j], side as int);
                assert(cell_has(grid@, slot_of(points@[j], side as int) as u64, j as usize));
                assert(here.x == cell_of(points@[j], side as int).0);
                assert(here.y == cell_of(points@[j], side as int).1);
            }
        }
        match found {
            Some(cell) => {
                let ghost k = slot(here.x as int, here.y as int) as u64;
                proof {
                    assert(cell_valid(points@, cell@, side as int, i as int, k));
                }
                let mut u: usize = 0;
                while u < cell.len()
                    invariant
                        i < points@.len(),
                        cell_valid(points@, cell@, side as int, i as int, k),
                        u <= cell@.len(),
                        best matches Some(c) ==> c.point_a < i && c.point_b == i && c.squared_distance
                            == sq_dist_at(points@, c.point_a as int, i as int),
                        forall|j: int|
                            0 <= j < i && #[trigger] sq_dist_at(points@, j, i as int) < side * side
                                && 0 <= cell_rank(points@, side as int, j, i as int) < t ==> (best matches Some(c)
                                && c.squared_distance <= sq_dist_at(points@, j, i as int)),
                        forall|w: int|
                            0 <= w < u ==> (best matches Some(c) && c.squared_distance <= #[trigger] sq_dist_at(
                                points@,
                                cell@[w] as int,
                                i as int,
                            )),
                    decreases cell@.len() - u,
                {
                    let j = cell[u];
                    proof {
                        assert(cell@[u as int] < i);
                    }
                    let current = ClosestPair::euclidean(points, j, i);
                    let better = match best {
                        Some(c) => current.squared_distance < c.squared_distance,
                        None => true,
                    };
                    if better {
                        best = Some(current);
                    }
                    u = u + 1;
                }
                proof {
                    assert forall|j: int|
                        0 <= j < i && #[trigger] sq_dist_at(points@, j, i as int) < side * side && cell_rank(
                            points@,
                            side as int,
                            j,
                            i as int,
                        ) == t implies (best matches Some(c) && c.squared_distance <= sq_dist_at(
                            points@,
                            j,
                            i as int,
                        )) by {
                        assert(cell@.contains(j as usize));
                        let w = choose|w: int| 0 <= w < cell@.len() && cell@[w] == j as usize;
                        assert(best matches Some(c) && c.squared_distance <= sq_dist_at(
                            points@,
                            cell@[w] as int,
                            i as int,
                        ));
                    }
                }
            },
            None => {},
        }
        t = t + 1;
    }
    proof {
        assert forall|j: int|
            0 <= j < i && #[trigger] sq_dist_at(points@, j, i as int) < side * side implies (best matches Some(
                c,
            ) && c.squared_distance <= sq_dist_at(points@, j, i as int)) by {
            lemma_close_is_nearby(points@, side as int, j, i as int);
        }
    }
    best
}

/// A coordinate of the plane where a cell boundary lies, kept within the
/// range of `i32`.
fn boundary(cell: i64, side: u64) -> (r: i32)
    requires
        -1 <= cell <= 0x1_0000_0001,
{
    proof {
        assert(-0xffff_ffff_ffff_ffff <= cell * side <= 0x1_0000_0001 * 0xffff_ffff_ffff_ffff) by (nonlinear_arith)
            requires
                -1 <= cell <= 0x1_0000_0001,
                0 <= side <= 0xffff_ffff_ffff_ffff;
    }
    let c: i128 = cell as i128 * side as i128 - 0x8000_0000;
    if c < i32::MIN as i128 {
        i32::MIN
    } else if c > i32::MAX as i128 {
        i32::MAX
    } else {
        c as i32
    }
}

/// What the frame before point `i` is looked up shows: eight boundary
/// lines, then the points before `i` in white, in order, and point `i` in
/// red.
pub open spec fn grid_frame_shows(pts: Seq<Point>, frame: Seq<Drawing>, i: int) -> bool {
    &&& frame.len() == 8 + i + 1
    &&& forall|k: int| 0 <= k < i ==> #[trigger] frame[8 + k] == Drawing::Point(pts[k], Color::White)
    &&& frame[8 + i] == Drawing::Point(pts[i], Color::Red)
}

/// The frame shown before point `i` is looked up: the boundaries of the
/// nine cells around its own in white, the points before it in white and
/// point `i` in red.
pub fn grid_frame(points: &[Point], i: usize, side: u64) -> (r: Vec<Drawing>)
    requires
        i < points@.len(),
        side >= 1,
    ensures
        grid_frame_shows(points@, r@, i as int),
{
    let key = CellKey::new(&points[i], side);
    let mut frame: Vec<Drawing> = Vec::new();
    let mut t: i64 = 0;
    while t < 4
        invariant
            0 <= t <= 4,
            0 <= key.x < 0x1_0000_0000,
            0 <= key.y < 0x1_0000_0000,
            side >= 1,
            frame@.len() == 2 * t,
        decreases 4 - t,
    {
        let x = boundary(key.x - 1 + t, side);
        let y = boundary(key.y - 1 + t, side);
        frame.push(vertical(x, Color::White));
        frame.push(Drawing::Line(Point { x: i32::MIN, y }, Point { x: i32::MAX, y }, Color::White));
        t = t + 1;
    }
    let mut k: usize = 0;
    while k < i
        invariant
            i < points@.len(),
            k <= i,
            frame@.len() == 8 + k,
            forall|q: int| 0 <= q < k ==> #[trigger] frame@[8 + q] == Drawing::Point(points@[q], Color::White),
        decreases i - k,
    {
        frame.push(Drawing::Point(points[k], Color::White));
        k = k + 1;
    }
    frame.push(Drawing::Point(points[i], Color::Red));
    frame
}

/// The grid search over `points`, and, when `draw` holds, one frame for
/// each point looked up.
pub fn grid_search(points: &[Point], draw: bool) -> (r: (ClosestPair, Vec<Vec<Drawing>>))
    requires
        points@.len() >= 2,
    ensures
        is_closest(points@, r.0),
        r.1@.len() == if draw { points@.len() - 2 } else { 0 },
        forall|f: int| 0 <= f < r.1@.len() ==> grid_frame_shows(points@, (#[trigger] r.1@[f])@, f + 2),
{
    let n = points.len();
    let mut frames: Vec<Vec<Drawing>> = Vec::new();
    let mut best = ClosestPair::euclidean(points, 0, 1);
    proof {
        lemma_sq_dist_symmetric(points@[0], points@[1]);
        lemma_sq_dist_symmetric(points@[1], points@[0]);
        assert(no_pair_below_upto(points@, 2, best.squared_distance as int));
        assert(best.squared_distance <= 2 * 0xffff_ffff_ffff_ffffu128) by {
            lemma_gap_below_sq_dist(points@[0], points@[1]);
            super::lemma_square_bound(points@[0].x - points@[1].x);
            super::lemma_square_bound(points@[0].y - points@[1].y);
        }
    }
    let mut side: u64 = if best.squared_distance > 0 { ceil_sqrt(best.squared_distance) } else { 1 };
    let mut grid = create_grid(points, 2, side);
    let mut i: usize = 2;
    while i < n
        invariant
            n == points@.len(),
            2 <= i <= n,
            is_pair_of(points@, best),
            best.point_a < i,
            best.point_b < i,
            no_pair_below_upto(points@, i as int, best.squared_distance as int),
            side >= 1,
            best.squared_distance > 0 ==> side * side >= best.squared_distance,
            grid_holds(points@, grid@, side as int, i as int),
            frames@.len() == if draw { i - 2 } else { 0 },
            forall|f: int| 0 <= f < frames@.len() ==> grid_frame_shows(points@, (#[trigger] frames@[f])@, f + 2),
        decreases n - i,
    {
        if draw {
            frames.push(grid_frame(points, i, side));
        }
        let found = nearest_in_cells(points, &grid, i, side);
        let improves = match found {
            Some(c) => c.squared_distance < best.squared_distance,
            None => false,
        };
        if improves {
            let c = found.unwrap();
            proof {
                assert forall|j: int| 0 <= j < i implies c.squared_distance <= #[trigger] sq_dist_at(
                    points@,
                    j,
                    i as int,
                ) by {
                    lemma_sq_dist_symmetric(points@[j], points@[i as int]);
                }
                lemma_extend_bound(points@, i as int, c.squared_distance as int);
                assert(no_pair_below_upto(points@, i as int, c.squared_distance as int));
                assert(c.squared_distance <= 2 * 0xffff_ffff_ffff_ffffu128) by {
                    lemma_gap_below_sq_dist(points@[c.point_a as int], points@[i as int]);
                    super::lemma_square_bound(points@[c.point_a as int].x - points@[i as int].x);
                    super::lemma_square_bound(points@[c.point_a as int].y - points@[i as int].y);
                }
            }
            best = c;
            if best.squared_distance > 0 {
                side = ceil_sqrt(best.squared_distance);
            }
            grid = create_grid(points, i + 1, side);
        } else {
            proof {
                assert forall|j: int| 0 <= j < i implies best.squared_distance <= #[trigger] sq_dist_at(
                    points@,
                    j,
                    i as int,
                ) by {
                    lemma_sq_dist_symmetric(points@[j], points@[i as int]);
                    if sq_dist_at(points@, j, i as int) < best.squared_distance {
                        assert(sq_dist_at(points@, j, i as int) < side * side);
                    }
                }
                lemma_extend_bound(points@, i as int, best.squared_distance as int);
            }
            let k = slot_of_point(&points[i], side);
            let ghost g0 = grid@;
            add_to_grid(&mut grid, k, i);
            proof {
                lemma_grid_add(points@, g0, side as int, i as int, k, grid@[k]);
            }
        }
        i = i + 1;
    }
    proof {
        if best.squared_distance == 0 {
            assert forall|a: int, b: int| 0 <= a < n && 0 <= b < n && a != b implies best.squared_distance
                <= #[trigger] sq_dist_at(points@, a, b) by {
                lemma_sq_dist_symmetric(points@[a], points@[b]);
            }
        } else {
            assert(no_pair_below_upto(points@, n as int, best.squared_distance as int));
        }
    }
    (best, frames)
}

impl ClosestPairAlgorithm for GridAlgorithm {
    /// One frame for each point from the third on.
    fn drawings(&self, points: &[Point]) -> (r: Vec<Vec<Drawing>>)
        ensures
            points@.len() >= 2 ==> r@.len() == points@.len() - 2,
            forall|f: int| 0 <= f < r@.len() ==> grid_frame_shows(points@, (#[trigger] r@[f])@, f + 2),
    {
        if points.len() < 2 {
            return Vec::new();
        }
        let (_, frames) = grid_search(points, true);
        frames
    }

    fn name(&self) -> &'static str {
        "grid"
    }

    fn limit(&self) -> (r: usize)
        ensures
            r == 10_000_000,
    {
        10_000_000
    }

    fn execute(&self, points: &[Point]) -> (r: Result<ClosestPair, PairError>) {
        if points.len() < 2 {
            return Err(PairError::InvalidInput);
        }
        let (best, _) = grid_search(points, false);
        Ok(best)
    }
}

} // verus!

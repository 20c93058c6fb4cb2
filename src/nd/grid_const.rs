//! The incremental grid in any number of dimensions: each new point is
//! compared with the points of the `3^D` cells around its own.
use vstd::prelude::*;
use std::collections::HashMap;

use super::{is_closest, lemma_partial_sq_dist, lemma_sq_dist_symmetric, partial_sq_dist, sq_dist_at, ClosestPair,
    ClosestPairAlgorithm, Point};
use crate::twod::grid::{cell_has, lemma_near_columns};
use crate::twod::grid_const::Cell;
use crate::twod::PairError;

verus! {

broadcast use vstd::std_specs::hash::group_hash_axioms;

/// Grid with cells of four places and an overflow list, in `D` dimensions.
pub struct GridAlgorithmConst;

/// The cell of a point: each coordinate, shifted to be non-negative,
/// divided by the side of a cell and rounded down.
#[derive(Clone, Copy, Debug, PartialEq, Eq)]
pub struct CellKey<const D: usize> {
    pub coordinates: [i64; D],
}

/// The cell coordinate of the coordinate `c` for cells of side `side`.
pub open spec fn cell_coord(c: i32, side: int) -> int {
    (c + 0x8000_0000) / side
}

/// The cell of `p` for cells of side `side`.
pub open spec fn cell_of<const D: usize>(p: Point<D>, side: int) -> Seq<i64> {
    Seq::new(D as nat, |d: int| cell_coord(p.coordinates@[d], side) as i64)
}

/// `k` differs from `c` by at most one, with wrapping, in each of the first
/// `e` coordinates and equals it in the others.
pub open spec fn around(k: Seq<i64>, c: Seq<i64>, e: int) -> bool {
    &&& k.len() == c.len()
    &&& forall|d: int|
        0 <= d < c.len() ==> if d < e {
            k[d] == c[d].wrapping_sub(1) || k[d] == c[d] || k[d] == c[d].wrapping_add(1)
        } else {
            k[d] == c[d]
        }
}

/// Some key of `keys` has the coordinates `k`.
pub open spec fn listed<const D: usize>(keys: Seq<CellKey<D>>, k: Seq<i64>) -> bool {
    exists|w: int| 0 <= w < keys.len() && (#[trigger] keys[w]).coordinates@ == k
}

/// Every cell coordinate lies in `0 .. 2^32`.
pub proof fn lemma_cell_coord_range(c: i32, side: int)
    requires
        side >= 1,
    ensures
        0 <= cell_coord(c, side) < 0x1_0000_0000,
{
    vstd::arithmetic::div_mod::lemma_div_is_ordered_by_denominator(c + 0x8000_0000, 1, side);
    vstd::arithmetic::div_mod::lemma_div_basics(c + 0x8000_0000);
    vstd::arithmetic::div_mod::lemma_div_pos_is_pos(c + 0x8000_0000, side);
}

impl<const D: usize> CellKey<D> {
    /// The cell of `point` in a grid of cells of side `side`.
    pub fn new(point: &Point<D>, side: u128) -> (r: CellKey<D>)
        requires
            side >= 1,
        ensures
            r.coordinates@ == cell_of(*point, side as int),
    {
        let mut coordinates = [0i64; D];
        let mut d: usize = 0;
        while d < D
            invariant
                side >= 1,
                d <= D,
                coordinates@.len() == D,
                forall|e: int| 0 <= e < d ==> coordinates@[e] == cell_coord(point.coordinates@[e], side as int),
            decreases D - d,
        {
            proof {
                lemma_cell_coord_range(point.coordinates@[d as int], side as int);
            }
            let shifted: u128 = (point.coordinates[d] as i64 + 0x8000_0000i64) as u128;
            coordinates[d] = (shifted / side) as i64;
            d = d + 1;
        }
        let r = CellKey { coordinates };
        proof {
            assert(r.coordinates@ =~= cell_of(*point, side as int));
        }
        r
    }

    /// The `3^D` cells around this one, itself included: every key that
    /// differs from this one by at most one in each coordinate, each once.
    pub fn nearbys(&self) -> (r: Vec<CellKey<D>>)
        ensures
            r@.len() == pow3(D as nat),
            forall|w: int| 0 <= w < r@.len() ==> around((#[trigger] r@[w]).coordinates@, self.coordinates@, D as int),
            forall|p: int, q: int|
                0 <= p < r@.len() && 0 <= q < r@.len() && p != q ==> (#[trigger] r@[p]).coordinates@
                    != (#[trigger] r@[q]).coordinates@,
            forall|k: Seq<i64>| #[trigger] around(k, self.coordinates@, D as int) ==> listed(r@, k),
    {
        let mut keys: Vec<CellKey<D>> = Vec::new();
        keys.push(*self);
        proof {
            assert forall|k: Seq<i64>| #[trigger] around(k, self.coordinates@, 0) implies listed(keys@, k) by {
                assert(keys@[0].coordinates@ =~= k);
            }
        }
        let mut e: usize = 0;
        while e < D
            invariant
                e <= D,
                self.coordinates@.len() == D,
                keys@.len() == pow3(e as nat),
                forall|w: int|
                    0 <= w < keys@.len() ==> around((#[trigger] keys@[w]).coordinates@, self.coordinates@, e as int),
                forall|p: int, q: int|
                    0 <= p < keys@.len() && 0 <= q < keys@.len() && p != q ==> (#[trigger] keys@[p]).coordinates@
                        != (#[trigger] keys@[q]).coordinates@,
                forall|k: Seq<i64>| #[trigger] around(k, self.coordinates@, e as int) ==> listed(keys@, k),
            decreases D - e,
        {
            let mut next: Vec<CellKey<D>> = Vec::new();
            let mut w: usize = 0;
            while w < keys.len()
                invariant
                    e < D,
                    self.coordinates@.len() == D,
                    forall|v: int| 0 <= v < keys@.len() ==> (#[trigger] keys@[v]).coordinates@.len() == D,
                    w <= keys@.len(),
                    next@.len() == 3 * w,
                    forall|m: int|
                        0 <= m < next@.len() ==> (#[trigger] next@[m]).coordinates@ == variant(
                            keys@[m / 3].coordinates@,
                            e as int,
                            m % 3,
                        ),
                decreases keys@.len() - w,
            {
                let base = keys[w];
                let mut lower = base;
                lower.coordinates[e] = base.coordinates[e].wrapping_sub(1);
                let mut upper = base;
                upper.coordinates[e] = base.coordinates[e].wrapping_add(1);
                let ghost before = next@;
                next.push(lower);
                next.push(base);
                next.push(upper);
                proof {
                    let c = base.coordinates@;
                    assert(lower.coordinates@ =~= variant(c, e as int, 0));
                    assert(upper.coordinates@ =~= variant(c, e as int, 2));
                    assert forall|m: int| 0 <= m < next@.len() implies (#[trigger] next@[m]).coordinates@ == variant(
                        keys@[m / 3].coordinates@,
                        e as int,
                        m % 3,
                    ) by {
                        if m < 3 * w {
                            assert(next@[m] == before[m]);
                        } else if m == 3 * w {
                            assert(m / 3 == w && m % 3 == 0);
                        } else if m == 3 * w + 1 {
                            assert(m / 3 == w && m % 3 == 1);
                        } else {
                            assert(m / 3 == w && m % 3 == 2);
                        }
                    }
                }
                w = w + 1;
            }
            proof {
                let c0 = self.coordinates@;
                assert forall|m: int| 0 <= m < next@.len() implies around(
                    (#[trigger] next@[m]).coordinates@,
                    c0,
                    e + 1,
                ) by {
                    let v = m / 3;
                    assert(around(keys@[v].coordinates@, c0, e as int));
                }
                assert forall|p: int, q: int|
                    0 <= p < next@.len() && 0 <= q < next@.len() && p != q implies (#[trigger] next@[p]).coordinates@
                        != (#[trigger] next@[q]).coordinates@ by {
                    let vp = p / 3;
                    let vq = q / 3;
                    let cp = keys@[vp].coordinates@;
                    let cq = keys@[vq].coordinates@;
                    assert(around(cp, c0, e as int));
                    assert(around(cq, c0, e as int));
                    if next@[p].coordinates@ == next@[q].coordinates@ {
                        if vp == vq {
                            assert(next@[p].coordinates@[e as int] == next@[q].coordinates@[e as int]);
                        } else {
                            assert forall|d: int| 0 <= d < D implies cp[d] == cq[d] by {
                                if d != e {
                                    assert(next@[p].coordinates@[d] == next@[q].coordinates@[d]);
                                }
                            }
                            assert(cp =~= cq);
                        }
                    }
                }
                assert forall|k: Seq<i64>| #[trigger] around(k, c0, e + 1) implies listed(next@, k) by {
                    let k1 = k.update(e as int, c0[e as int]);
                    assert(around(k1, c0, e as int));
                    let v = choose|v: int| 0 <= v < keys@.len() && (#[trigger] keys@[v]).coordinates@ == k1;
                    let c = keys@[v].coordinates@;
                    if k[e as int] == c0[e as int].wrapping_sub(1) {
                        assert(next@[3 * v].coordinates@ =~= k);
                    } else if k[e as int] == c0[e as int] {
                        assert(next@[3 * v + 1].coordinates@ =~= k);
                    } else {
                        assert(next@[3 * v + 2].coordinates@ =~= k);
                    }
                }
            }
            keys = next;
            e = e + 1;
        }
        keys
    }
}

/// `3^e`.
pub open spec fn pow3(e: nat) -> nat
    decreases e,
{
    if e == 0 {
        1
    } else {
        3 * pow3((e - 1) as nat)
    }
}

/// The key `c` with coordinate `e` moved down by one (`r == 0`), kept
/// (`r == 1`) or moved up by one (`r == 2`), with wrapping.
pub open spec fn variant(c: Seq<i64>, e: int, r: int) -> Seq<i64> {
    if r == 0 {
        c.update(e, c[e].wrapping_sub(1))
    } else if r == 1 {
        c
    } else {
        c.update(e, c[e].wrapping_add(1))
    }
}

/// A number for the cell `k`, taken from its first `n` coordinates; cells
/// with equal coordinates get equal numbers.
pub open spec fn key_hash(k: Seq<i64>, n: nat) -> u64
    decreases n,
{
    if n == 0 {
        0
    } else {
        key_hash(k, (n - 1) as nat).wrapping_mul(0x100_0000_01b3).wrapping_add(k[n - 1] as u64)
    }
}

/// Every coordinate of `k` lies in `0 .. 2^32`, as those of a point's cell do.
pub open spec fn key_in_range(k: Seq<i64>) -> bool {
    forall|d: int| 0 <= d < k.len() ==> 0 <= #[trigger] k[d] < 0x1_0000_0000
}

impl<const D: usize> CellKey<D> {
    /// The number of this cell in the map.
    pub fn hash(&self) -> (h: u64)
        ensures
            h == key_hash(self.coordinates@, D as nat),
    {
        let mut h: u64 = 0;
        let mut d: usize = 0;
        while d < D
            invariant
                d <= D,
                self.coordinates@.len() == D,
                h == key_hash(self.coordinates@, d as nat),
            decreases D - d,
        {
            h = h.wrapping_mul(0x100_0000_01b3).wrapping_add(self.coordinates[d] as u64);
            d = d + 1;
        }
        h
    }

    /// Whether this is a cell that a point can fall in.
    pub fn in_range(&self) -> (r: bool)
        ensures
            r == key_in_range(self.coordinates@),
    {
        let mut d: usize = 0;
        while d < D
            invariant
                d <= D,
                self.coordinates@.len() == D,
                forall|e: int| 0 <= e < d ==> 0 <= #[trigger] self.coordinates@[e] < 0x1_0000_0000,
            decreases D - d,
        {
            if self.coordinates[d] < 0 || self.coordinates[d] >= 0x1_0000_0000 {
                return false;
            }
            d = d + 1;
        }
        true
    }
}

/// The smallest `s` with `s * s >= d`: the side of a cell for a best
/// squared distance `d`.
pub fn ceil_sqrt_wide(d: u128) -> (s: u128)
    requires
        d >= 1,
    ensures
        s >= 1,
        s * s >= d,
        (s - 1) * (s - 1) < d,
{
    let mut lo: u128 = 0;
    let mut hi: u128 = 0x1_0000_0000_0000_0000;
    assert(0x1_0000_0000_0000_0000 * 0x1_0000_0000_0000_0000 > u128::MAX) by (nonlinear_arith);
    while hi - lo > 1
        invariant
            lo < hi <= 0x1_0000_0000_0000_0000,
            lo * lo < d,
            hi * hi >= d,
        decreases hi - lo,
    {
        let mid: u128 = lo + (hi - lo) / 2;
        proof {
            crate::twod::lemma_square_monotone(mid as int, 0xffff_ffff_ffff_ffff);
        }
        if mid * mid >= d {
            hi = mid;
        } else {
            lo = mid;
        }
    }
    hi
}

/// Each coordinate gap, squared, is at most the sum over the first `k`
/// coordinates when it is one of them.
pub proof fn lemma_gap_below_partial(a: Seq<i32>, b: Seq<i32>, d: int, k: nat)
    requires
        0 <= d < k,
    ensures
        (a[d] - b[d]) * (a[d] - b[d]) <= partial_sq_dist(a, b, k),
    decreases k,
{
    if d < k - 1 {
        lemma_gap_below_partial(a, b, d, (k - 1) as nat);
        let g = a[k - 1] - b[k - 1];
        assert(g * g >= 0) by (nonlinear_arith);
    } else {
        lemma_partial_sq_dist(a, b, (k - 1) as nat);
    }
}

/// A point closer to point `i` than the side of a cell lies in one of the
/// cells around the cell of point `i`.
pub proof fn lemma_close_is_around<const D: usize>(pts: Seq<Point<D>>, side: int, j: int, i: int)
    requires
        0 <= j < pts.len(),
        0 <= i < pts.len(),
        side >= 1,
        sq_dist_at(pts, j, i) < side * side,
    ensures
        around(cell_of(pts[j], side), cell_of(pts[i], side), D as int),
{
    let cj = cell_of(pts[j], side);
    let ci = cell_of(pts[i], side);
    let a = pts[j].coordinates@;
    let b = pts[i].coordinates@;
    assert forall|d: int| 0 <= d < D implies {
        ||| cj[d] == ci[d].wrapping_sub(1)
        ||| cj[d] == ci[d]
        ||| cj[d] == ci[d].wrapping_add(1)
    } by {
        lemma_gap_below_partial(a, b, d, D as nat);
        lemma_cell_coord_range(a[d], side);
        lemma_cell_coord_range(b[d], side);
        lemma_near_columns(a[d] + 0x8000_0000, b[d] + 0x8000_0000, side);
    }
}

/// The grid holds the indices below `n`, each in the cell numbered after
/// the cell of its point.
pub open spec fn grid_holds<const D: usize>(pts: Seq<Point<D>>, m: Map<u64, Cell>, side: int, n: int) -> bool {
    &&& forall|k: u64| #[trigger] m.contains_key(k) ==> forall|t: int|
        0 <= t < m[k]@.len() ==> #[trigger] m[k]@[t] < n
    &&& forall|j: int|
        0 <= j < n ==> #[trigger] cell_has(m, key_hash(cell_of(pts[j], side), D as nat), j as usize)
}

/// The grid after `i` joins the cell numbered `k` of its point.
pub proof fn lemma_grid_add<const D: usize>(pts: Seq<Point<D>>, m: Map<u64, Cell>, side: int, i: int, k: u64, cell: Cell)
    requires
        grid_holds(pts, m, side, i),
        0 <= i < pts.len(),
        i <= usize::MAX,
        k == key_hash(cell_of(pts[i], side), D as nat),
        cell@ == (if m.contains_key(k) { m[k]@ } else { Seq::<usize>::empty() }).push(i as usize),
    ensures
        grid_holds(pts, m.insert(k, cell), side, i + 1),
{
    let m2 = m.insert(k, cell);
    let old_cell = if m.contains_key(k) { m[k]@ } else { Seq::<usize>::empty() };
    assert forall|q: u64| #[trigger] m2.contains_key(q) implies forall|t: int|
        0 <= t < m2[q]@.len() ==> #[trigger] m2[q]@[t] < i + 1 by {
        if q == k {
            assert forall|t: int| 0 <= t < cell@.len() implies #[trigger] cell@[t] < i + 1 by {
                if t < old_cell.len() {
                    assert(cell@[t] == old_cell[t]);
                }
            }
        } else {
            assert(m.contains_key(q));
        }
    }
    assert forall|j: int| 0 <= j < i + 1 implies #[trigger] cell_has(
        m2,
        key_hash(cell_of(pts[j], side), D as nat),
        j as usize,
    ) by {
        if j < i {
            assert(cell_has(m, key_hash(cell_of(pts[j], side), D as nat), j as usize));
            if key_hash(cell_of(pts[j], side), D as nat) == k {
                let w = choose|w: int| 0 <= w < old_cell.len() && old_cell[w] == j as usize;
                assert(cell@[w] == j as usize);
            }
        } else {
            assert(cell@[old_cell.len() as int] == i as usize);
        }
    }
}

/// A grid of cells of side `side` over the points with indices below `n`.
pub fn create_grid<const D: usize>(points: &[Point<D>], n: usize, side: u128) -> (r: HashMap<u64, Cell>)
    requires
        n <= points@.len(),
        side >= 1,
    ensures
        grid_holds(points@, r@, side as int, n as int),
{
    let mut grid: HashMap<u64, Cell> = HashMap::new();
    let mut i: usize = 0;
    while i < n
        invariant
            n <= points@.len(),
            side >= 1,
            i <= n,
            grid_holds(points@, grid@, side as int, i as int),
        decreases n - i,
    {
        let k = CellKey::new(&points[i], side).hash();
        let ghost g0 = grid@;
        crate::twod::grid_const::add_to_grid(&mut grid, k, i);
        proof {
            lemma_grid_add(points@, g0, side as int, i as int, k, grid@[k]);
        }
        i = i + 1;
    }
    grid
}

/// `cur` holds a pair no farther apart than `d` (squared).
pub open spec fn reaches(cur: Option<ClosestPair>, d: int) -> bool {
    cur matches Some(c) && c.squared_distance <= d
}

/// `cur` is empty or pairs an earlier point with point `i`.
pub open spec fn pairs_with<const D: usize>(pts: Seq<Point<D>>, cur: Option<ClosestPair>, i: int) -> bool {
    cur matches Some(c) ==> c.point_a < i && c.point_b == i && c.squared_distance == sq_dist_at(
        pts,
        c.point_a as int,
        i,
    )
}

/// Compares point `i` with every point of `cell`, starting from `best`.
pub fn nearest_in_cell<const D: usize>(points: &[Point<D>], cell: &Cell, i: usize, best: Option<ClosestPair>) -> (r:
    Option<ClosestPair>)
    requires
        i < points@.len(),
        forall|t: int| 0 <= t < cell@.len() ==> #[trigger] cell@[t] < i,
        pairs_with(points@, best, i as int),
    ensures
        pairs_with(points@, r, i as int),
        best matches Some(b) ==> reaches(r, b.squared_distance as int),
        forall|w: int| 0 <= w < cell@.len() ==> reaches(r, #[trigger] sq_dist_at(points@, cell@[w] as int, i as int)),
{
    let mut cur = best;
    let k = cell.in_place_len();
    let extra = cell.extra_len();
    let mut u: usize = 0;
    while u < k
        invariant
            i < points@.len(),
            forall|t: int| 0 <= t < cell@.len() ==> #[trigger] cell@[t] < i,
            k == cell.split(),
            k + extra == cell@.len(),
            u <= k,
            pairs_with(points@, cur, i as int),
            best matches Some(b) ==> reaches(cur, b.squared_distance as int),
            forall|p: int| 0 <= p < u ==> reaches(cur, #[trigger] sq_dist_at(points@, cell@[p] as int, i as int)),
        decreases k - u,
    {
        let j = cell.get(u);
        proof {
            assert(cell@[u as int] < i);
        }
        let current = ClosestPair::euclidean(points, j, i);
        let better = match cur {
            Some(c) => current.squared_distance < c.squared_distance,
            None => true,
        };
        if better {
            cur = Some(current);
        }
        u = u + 1;
    }
    let mut w: usize = 0;
    while w < extra
        invariant
            i < points@.len(),
            forall|t: int| 0 <= t < cell@.len() ==> #[trigger] cell@[t] < i,
            k == cell.split(),
            k + extra == cell@.len(),
            w <= extra,
            pairs_with(points@, cur, i as int),
            best matches Some(b) ==> reaches(cur, b.squared_distance as int),
            forall|p: int| 0 <= p < k + w ==> reaches(cur, #[trigger] sq_dist_at(points@, cell@[p] as int, i as int)),
        decreases extra - w,
    {
        let j = cell.get_extra(w);
        proof {
            assert(cell@[k + w] < i);
        }
        let current = ClosestPair::euclidean(points, j, i);
        let better = match cur {
            Some(c) => current.squared_distance < c.squared_distance,
            None => true,
        };
        if better {
            cur = Some(current);
        }
        w = w + 1;
    }
    cur
}

/// Compares point `i` with every point in the cells around its own and
/// returns the closest of them, if any.
pub fn nearest_in_cells<const D: usize>(points: &[Point<D>], grid: &HashMap<u64, Cell>, i: usize, side: u128) -> (r:
    Option<ClosestPair>)
    requires
        i < points@.len(),
        side >= 1,
        grid_holds(points@, grid@, side as int, i as int),
    ensures
        pairs_with(points@, r, i as int),
        forall|j: int|
            0 <= j < i && #[trigger] sq_dist_at(points@, j, i as int) < side * side ==> reaches(
                r,
                sq_dist_at(points@, j, i as int),
            ),
{
    let key = CellKey::new(&points[i], side);
    let keys = key.nearbys();
    let mut best: Option<ClosestPair> = None;
    let mut t: usize = 0;
    while t < keys.len()
        invariant
            i < points@.len(),
            side >= 1,
            grid_holds(points@, grid@, side as int, i as int),
            t <= keys@.len(),
            pairs_with(points@, best, i as int),
            forall|j: int, u: int|
                #![trigger keys@[u], sq_dist_at(points@, j, i as int)]
                0 <= j < i && 0 <= u < t && keys@[u].coordinates@ == cell_of(points@[j], side as int)
                    && sq_dist_at(points@, j, i as int) < side * side ==> reaches(
                    best,
                    sq_dist_at(points@, j, i as int),
                ),
        decreases keys@.len() - t,
    {
        let here = keys[t];
        if here.in_range() {
            let h = here.hash();
            match grid.get(&h) {
                Some(cell) => {
                    proof {
                        assert forall|x: int| 0 <= x < cell@.len() implies #[trigger] cell@[x] < i by {
                            assert(grid@.contains_key(h));
                        }
                    }
                    best = nearest_in_cell(points, cell, i, best);
                    proof {
                        assert forall|j: int, u: int|
                            #![trigger keys@[u], sq_dist_at(points@, j, i as int)]
                            0 <= j < i && 0 <= u < t + 1 && keys@[u].coordinates@ == cell_of(points@[j], side as int)
                                && sq_dist_at(points@, j, i as int) < side * side implies reaches(
                                best,
                                sq_dist_at(points@, j, i as int),
                            ) by {
                            if u == t {
                                assert(cell_has(grid@, key_hash(cell_of(points@[j], side as int), D as nat), j as usize));
                                assert(cell@.contains(j as usize));
                                let w = choose|w: int| 0 <= w < cell@.len() && cell@[w] == j as usize;
                                assert(reaches(best, sq_dist_at(points@, cell@[w] as int, i as int)));
                            }
                        }
                    }
                },
                None => {
                    proof {
                        assert forall|j: int|
                            0 <= j < i && here.coordinates@ == cell_of(points@[j], side as int) implies false by {
                            assert(cell_has(grid@, key_hash(cell_of(points@[j], side as int), D as nat), j as usize));
                        }
                    }
                },
            }
        } else {
            proof {
                assert forall|j: int|
                    0 <= j < i && here.coordinates@ == cell_of(points@[j], side as int) implies false by {
                    assert forall|d: int| 0 <= d < here.coordinates@.len() implies 0 <= #[trigger] here.coordinates@[d]
                        < 0x1_0000_0000 by {
                        lemma_cell_coord_range(points@[j].coordinates@[d], side as int);
                    }
                }
            }
        }
        t = t + 1;
    }
    proof {
        assert forall|j: int|
            0 <= j < i && #[trigger] sq_dist_at(points@, j, i as int) < side * side implies reaches(
                best,
                sq_dist_at(points@, j, i as int),
            ) by {
            lemma_close_is_around(points@, side as int, j, i as int);
            assert(listed(keys@, cell_of(points@[j], side as int)));
            let u = choose|u: int| 0 <= u < keys@.len() && (#[trigger] keys@[u]).coordinates@ == cell_of(
                points@[j],
                side as int,
            );
        }
    }
    best
}

/// No two distinct points among the first `n` are closer than `d` (squared).
pub open spec fn no_pair_below_upto<const D: usize>(pts: Seq<Point<D>>, n: int, d: int) -> bool {
    forall|a: int, b: int| 0 <= a < n && 0 <= b < n && a != b ==> d <= #[trigger] sq_dist_at(pts, a, b)
}

/// A bound on the first `i` points and on the pairs that point `i` makes
/// with them is a bound on the first `i + 1` points.
pub proof fn lemma_extend_bound<const D: usize>(pts: Seq<Point<D>>, i: int, d: int)
    requires
        0 <= i < pts.len(),
        no_pair_below_upto(pts, i, d),
        forall|j: int| 0 <= j < i ==> d <= #[trigger] sq_dist_at(pts, j, i),
    ensures
        no_pair_below_upto(pts, i + 1, d),
{
    assert forall|a: int, b: int| 0 <= a < i + 1 && 0 <= b < i + 1 && a != b implies d
        <= #[trigger] sq_dist_at(pts, a, b) by {
        if a == i {
            lemma_sq_dist_symmetric(pts[a], pts[b]);
            assert(d <= sq_dist_at(pts, b, i));
        } else if b == i {
            assert(d <= sq_dist_at(pts, a, i));
        }
    }
}

impl ClosestPairAlgorithm for GridAlgorithmConst {
    fn execute<const D: usize>(&self, points: &[Point<D>]) -> (r: Result<ClosestPair, PairError>) {
        let n = points.len();
        if n < 2 {
            return Err(PairError::InvalidInput);
        }
        let mut best = ClosestPair::euclidean(points, 0, 1);
        proof {
            lemma_sq_dist_symmetric(points@[0], points@[1]);
            assert(no_pair_below_upto(points@, 2, best.squared_distance as int));
        }
        let mut side: u128 = if best.squared_distance > 0 { ceil_sqrt_wide(best.squared_distance) } else { 1 };
        let mut grid = create_grid(points, 2, side);
        let mut i: usize = 2;
        while i < n && best.squared_distance > 0
            invariant
                n == points@.len(),
                2 <= i <= n,
                best.point_a < i,
                best.point_b < i,
                best.point_a != best.point_b,
                best.squared_distance == sq_dist_at(points@, best.point_a as int, best.point_b as int),
                no_pair_below_upto(points@, i as int, best.squared_distance as int),
                side >= 1,
                best.squared_distance > 0 ==> side * side >= best.squared_distance,
                grid_holds(points@, grid@, side as int, i as int),
            decreases n - i,
        {
            let found = nearest_in_cells(points, &grid, i, side);
            let improves = match found {
                Some(c) => c.squared_distance < best.squared_distance,
                None => false,
            };
            if improves {
                let c = found.unwrap();
                proof {
                    assert forall|j: int| 0 <= j < i implies c.squared_distance <= #[trigger] sq_dist_at(
                        points@,
                        j,
                        i as int,
                    ) by {
                        if sq_dist_at(points@, j, i as int) < side * side {
                            assert(reaches(found, sq_dist_at(points@, j, i as int)));
                        }
                    }
                    lemma_extend_bound(points@, i as int, c.squared_distance as int);
                }
                best = c;
                if best.squared_distance > 0 {
                    side = ceil_sqrt_wide(best.squared_distance);
                }
                grid = create_grid(points, i + 1, side);
            } else {
                proof {
                    assert forall|j: int| 0 <= j < i implies best.squared_distance <= #[trigger] sq_dist_at(
                        points@,
                        j,
                        i as int,
                    ) by {
                        if sq_dist_at(points@, j, i as int) < best.squared_distance {
                            assert(sq_dist_at(points@, j, i as int) < side * side);
                            assert(reaches(found, sq_dist_at(points@, j, i as int)));
                        }
                    }
                    lemma_extend_bound(points@, i as int, best.squared_distance as int);
                }
                let k = CellKey::new(&points[i], side).hash();
                let ghost g0 = grid@;
                crate::twod::grid_const::add_to_grid(&mut grid, k, i);
                proof {
                    lemma_grid_add(points@, g0, side as int, i as int, k, grid@[k]);
                }
            }
            i = i + 1;
        }
        proof {
            if best.squared_distance == 0 {
                assert forall|a: int, b: int| 0 <= a < n && 0 <= b < n && a != b implies best.squared_distance
                    <= #[trigger] sq_dist_at(points@, a, b) by {
                    lemma_sq_dist_symmetric(points@[a], points@[b]);
                }
            } else {
                assert(no_pair_below_upto(points@, n as int, best.squared_distance as int));
            }
        }
        Ok(best)
    }
}

} // verus!

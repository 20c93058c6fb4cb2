//! The incremental grid with cells that hold four indices in place and
//! keep any further ones in an overflow list, so that no index is lost.
use vstd::prelude::*;
use std::collections::HashMap;

pub use super::grid::CellKey;
use super::grid::{
    cell_has, cell_of, cell_rank, cell_valid, grid_tidy, lemma_tidy_add, ceil_sqrt, grid_holds, lemma_cell_in_range, lemma_close_is_nearby,
    lemma_extend_bound, lemma_grid_add, no_pair_below_upto, slot, slot_of, slot_of_point, step,
};
use super::{
    lemma_gap_below_sq_dist, lemma_sq_dist_symmetric, is_pair_of, sq_dist_at, ClosestPair,
    ClosestPairAlgorithm, Drawing, PairError, Point,
};

verus! {

broadcast use vstd::std_specs::hash::group_hash_axioms;

/// Grid whose cells keep their first four indices in a fixed array.
pub struct GridAlgorithmConst;

/// The indices of one cell: up to four in place, the rest in `extra`.
pub struct Cell {
    points: [usize; 4],
    size: u8,
    extra: Vec<usize>,
}

/// How many of the four places of a cell are in use.
pub open spec fn in_place(size: u8) -> int {
    if size < 4 {
        size as int
    } else {
        4
    }
}

impl View for Cell {
    type V = Seq<usize>;

    closed spec fn view(&self) -> Seq<usize> {
        self.points@.subrange(0, in_place(self.size)) + self.extra@
    }
}

impl Cell {
    /// An empty cell.
    pub fn new() -> (r: Cell)
        ensures
            r@ == Seq::<usize>::empty(),
    {
        let r = Cell { points: [0, 0, 0, 0], size: 0, extra: Vec::new() };
        proof {
            assert(r@ =~= Seq::<usize>::empty());
        }
        r
    }

    /// Adds an index at the end of the cell.
    pub fn push(&mut self, point: usize)
        ensures
            final(self)@ == old(self)@.push(point),
    {
        if self.size < 4 && self.extra.len() == 0 {
            let ghost n = self.size as int;
            self.points[self.size as usize] = point;
            self.size = self.size + 1;
            proof {
                assert(final(self).points@.subrange(0, n + 1) =~= old(self).points@.subrange(0, n).push(
                    point,
                ));
                assert(final(self)@ =~= old(self)@.push(point));
            }
        } else {
            self.extra.push(point);
            proof {
                assert(final(self)@ =~= old(self)@.push(point));
            }
        }
    }

    /// How many of the first indices are kept in place.
    pub closed spec fn split(&self) -> int {
        in_place(self.size)
    }

    /// The number of indices kept in place.
    pub fn in_place_len(&self) -> (r: usize)
        ensures
            r == self.split(),
            r <= 4,
            r <= self@.len(),
    {
        if self.size < 4 {
            self.size as usize
        } else {
            4
        }
    }

    /// The number of indices kept in the overflow list.
    pub fn extra_len(&self) -> (r: usize)
        ensures
            r == self@.len() - self.split(),
    {
        self.extra.len()
    }

    /// The index at place `u`.
    pub fn get(&self, u: usize) -> (r: usize)
        requires
            u < self.split(),
        ensures
            r == self@[u as int],
    {
        self.points[u]
    }

    /// The index at position `w` of the overflow list.
    pub fn get_extra(&self, w: usize) -> (r: usize)
        requires
            w < self@.len() - self.split(),
        ensures
            r == self@[self.split() + w],
    {
        self.extra[w]
    }
}

/// `cur` holds a pair no farther apart than `d` (squared).
pub open spec fn reaches(cur: Option<ClosestPair>, d: int) -> bool {
    cur matches Some(c) && c.squared_distance <= d
}

/// Compares point `i` with every point of `cell`, starting from `best`.
pub fn nearest_in_cell(points: &[Point], cell: &Cell, i: usize, best: Option<ClosestPair>) -> (r: Option<
    ClosestPair,
>)
    requires
        i < points@.len(),
        forall|t: int| 0 <= t < cell@.len() ==> #[trigger] cell@[t] < i,
        best matches Some(c) ==> c.point_a < i && c.point_b == i && c.squared_distance == sq_dist_at(
            points@,
            c.point_a as int,
            i as int,
        ),
    ensures
        r matches Some(c) ==> c.point_a < i && c.point_b == i && c.squared_distance == sq_dist_at(
            points@,
            c.point_a as int,
            i as int,
        ),
        best matches Some(b) ==> (r matches Some(c) && c.squared_distance <= b.squared_distance),
        forall|w: int|
            0 <= w < cell@.len() ==> reaches(r, #[trigger] sq_dist_at(points@, cell@[w] as int, i as int)),
{
    let mut cur = best;
    let k = cell.in_place_len();
    let extra = cell.extra_len();
    let mut u: usize = 0;
    while u < k
        invariant
            i < points@.len(),
            forall|t: int| 0 <= t < cell@.len() ==> #[trigger] cell@[t] < i,
            k == cell.split(),
            k + extra == cell@.len(),
            cur matches Some(c) ==> c.point_a < i && c.point_b == i && c.squared_distance == sq_dist_at(
                points@,
                c.point_a as int,
                i as int,
            ),
            best matches Some(b) ==> (cur matches Some(c) && c.squared_distance <= b.squared_distance),
            forall|w: int|
                0 <= w < u ==> reaches(cur, #[trigger] sq_dist_at(points@, cell@[w] as int, i as int)),
            u <= k,
        decreases k - u,
    {
        let j = cell.get(u);
        proof {
            assert(cell@[u as int] < i);
        }
        let current = ClosestPair::euclidean(points, j, i);
        let better = match cur {
            Some(c) => current.squared_distance < c.squared_distance,
            None => true,
        };
        if better {
            cur = Some(current);
        }
        u = u + 1;
    }
    let mut w: usize = 0;
    while w < extra
        invariant
            i < points@.len(),
            forall|t: int| 0 <= t < cell@.len() ==> #[trigger] cell@[t] < i,
            k == cell.split(),
            k + extra == cell@.len(),
            cur matches Some(c) ==> c.point_a < i && c.point_b == i && c.squared_distance == sq_dist_at(
                points@,
                c.point_a as int,
                i as int,
            ),
            best matches Some(b) ==> (cur matches Some(c) && c.squared_distance <= b.squared_distance),
            forall|p: int|
                0 <= p < k + w ==> reaches(cur, #[trigger] sq_dist_at(points@, cell@[p] as int, i as int)),
            w <= extra,
        decreases extra - w,
    {
        let j = cell.get_extra(w);
        proof {
            assert(cell@[k + w] < i);
        }
        let current = ClosestPair::euclidean(points, j, i);
        let better = match cur {
            Some(c) => current.squared_distance < c.squared_distance,
            None => true,
        };
        if better {
            cur = Some(current);
        }
        w = w + 1;
    }
    cur
}

/// Puts index `i` into the cell numbered `k`.
pub fn add_to_grid(grid: &mut HashMap<u64, Cell>, k: u64, i: usize)
    ensures
        final(grid)@.contains_key(k),
        final(grid)@ == old(grid)@.insert(k, final(grid)@[k]),
        final(grid)@[k]@ == (if old(grid)@.contains_key(k) { old(grid)@[k]@ } else {
            Seq::<usize>::empty()
        }).push(i),
{
    let cell = grid.remove(&k);
    match cell {
        Some(mut c) => {
            c.push(i);
            grid.insert(k, c);
        },
        None => {
            let mut c = Cell::new();
            c.push(i);
            grid.insert(k, c);
        },
    }
    proof {
        assert(final(grid)@ =~= old(grid)@.insert(k, final(grid)@[k]));
    }
}

/// A grid of cells of side `side` over the points with indices below `n`.
pub fn create_grid(points: &[Point], n: usize, side: u64) -> (r: HashMap<u64, Cell>)
    requires
        n <= points@.len(),
        side >= 1,
    ensures
        grid_holds(points@, r@, side as int, n as int),
        grid_tidy(r@),
{
    let mut grid: HashMap<u64, Cell> = HashMap::new();
    let mut i: usize = 0;
    while i < n
        invariant
            n <= points@.len(),
            side >= 1,
            i <= n,
            grid_holds(points@, grid@, side as int, i as int),
            grid_tidy(grid@),
        decreases n - i,
    {
        let k = slot_of_point(&points[i], side);
        let ghost g0 = grid@;
        add_to_grid(&mut grid, k, i);
        proof {
            lemma_grid_add(points@, g0, side as int, i as int, k, grid@[k]);
            lemma_tidy_add(points@, g0, side as int, i as int, k, grid@[k]);
        }
        i = i + 1;
    }
    grid
}

/// Compares point `i` with every point in the nine cells around its own and
/// returns the closest of them, the first one met on ties, if any.
pub fn nearest_in_cells(points: &[Point], grid: &HashMap<u64, Cell>, i: usize, side: u64) -> (r:
    Option<ClosestPair>)
    requires
        i < points@.len(),
        side >= 1,
        grid_holds(points@, grid@, side as int, i as int),
    ensures
        r matches Some(c) ==> c.point_a < i && c.point_b == i && c.squared_distance == sq_dist_at(
            points@,
            c.point_a as int,
            i as int,
        ),
        forall|j: int|
            0 <= j < i && #[trigger] sq_dist_at(points@, j, i as int) < side * side ==> (r matches Some(c)
                && c.squared_distance <= sq_dist_at(points@, j, i as int)),
{
    let key = CellKey::new(&points[i], side);
    let nearbys = key.nearbys();
    let mut best: Option<ClosestPair> = None;
    let mut t: usize = 0;
    while t < 9
        invariant
            i < points@.len(),
            side >= 1,
            grid_holds(points@, grid@, side as int, i as int),
            key.x == cell_of(points@[i as int], side as int).0,
            key.y == cell_of(points@[i as int], side as int).1,
            forall|u: int|
                0 <= u < 9 ==> #[trigger] nearbys[u] == (CellKey {
                    x: step(key.x, u / 3 - 1),
                    y: step(key.y, u % 3 - 1),
                }),
            t <= 9,
            best matches Some(c) ==> c.point_a < i && c.point_b == i && c.squared_distance == sq_dist_at(
                points@,
                c.point_a as int,
                i as int,
            ),
            forall|j: int|
                0 <= j < i && #[trigger] sq_dist_at(points@, j, i as int) < side * side && 0 <= cell_rank(
                    points@,
                    side as int,
                    j,
                    i as int,
                ) < t ==> (best matches Some(c) && c.squared_distance <= sq_dist_at(points@, j, i as int)),
        decreases 9 - t,
    {
        let here = nearbys[t];
        let found = match here.slot() {
            Some(k) => grid.get(&k),
            None => None,
        };
        proof {
            lemma_cell_in_range(points@[i as int], side as int);
            assert forall|j: int|
                0 <= j < i && #[trigger] sq_dist_at(points@, j, i as int) < side * side && cell_rank(
                    points@,
                    side as int,
                    j,
                    i as int,
                ) == t implies found is Some && found->0@.contains(j as usize) by {
                lemma_close_is_nearby(points@, side as int, j, i as int);
                lemma_cell_in_range(points@[j], side as int);
                assert(cell_has(grid@, slot_of(points@[j], side as int) as u64, j as usize));
                assert(here.x == cell_of(points@[j], side as int).0);
                assert(here.y == cell_of(points@[j], side as int).1);
            }
        }
        match found {
            Some(cell) => {
                let ghost k = slot(here.x as int, here.y as int) as u64;
                proof {
                    assert(cell_valid(points@, cell@, side as int, i as int, k));
                    assert forall|t: int| 0 <= t < cell@.len() implies #[trigger] cell@[t] < i by {
                        assert(cell@[t] < i && cell@[t] < points@.len());
                    }
                }
                best = nearest_in_cell(points, cell, i, best);
                proof {
                    assert forall|j: int|
                        0 <= j < i && #[trigger] sq_dist_at(points@, j, i as int) < side * side && cell_rank(
                            points@,
                            side as int,
                            j,
                            i as int,
                        ) == t implies (best matches Some(c) && c.squared_distance <= sq_dist_at(
                            points@,
                            j,
                            i as int,
                        )) by {
                        assert(cell@.contains(j as usize));
                        let w = choose|w: int| 0 <= w < cell@.len() && cell@[w] == j as usize;
                        assert(best matches Some(c) && c.squared_distance <= sq_dist_at(
                            points@,
                            cell@[w] as int,
                            i as int,
                        ));
                    }
                }
            },
            None => {},
        }
        t = t + 1;
    }
    proof {
        assert forall|j: int|
            0 <= j < i && #[trigger] sq_dist_at(points@, j, i as int) < side * side implies (best matches Some(
                c,
            ) && c.squared_distance <= sq_dist_at(points@, j, i as int)) by {
            lemma_close_is_nearby(points@, side as int, j, i as int);
        }
    }
    best
}

impl ClosestPairAlgorithm for GridAlgorithmConst {
    fn drawings(&self, points: &[Point]) -> (r: Vec<Vec<Drawing>>) {
        Vec::new()
    }

    fn name(&self) -> &'static str {
        "grid const"
    }

    fn limit(&self) -> (r: usize)
        ensures
            r == usize::MAX,
    {
        usize::MAX
    }

    fn execute(&self, points: &[Point]) -> (r: Result<ClosestPair, PairError>) {
        let n = points.len();
        if n < 2 {
            return Err(PairError::InvalidInput);
        }
        let mut best = ClosestPair::euclidean(points, 0, 1);
        proof {
            lemma_sq_dist_symmetric(points@[0], points@[1]);
            lemma_sq_dist_symmetric(points@[1], points@[0]);
            assert(no_pair_below_upto(points@, 2, best.squared_distance as int));
            assert(best.squared_distance <= 2 * 0xffff_ffff_ffff_ffffu128) by {
                lemma_gap_below_sq_dist(points@[0], points@[1]);
                super::lemma_square_bound(points@[0].x - points@[1].x);
                super::lemma_square_bound(points@[0].y - points@[1].y);
            }
        }
        let mut side: u64 = if best.squared_distance > 0 { ceil_sqrt(best.squared_distance) } else { 1 };
        let mut grid = create_grid(points, 2, side);
        let mut i: usize = 2;
        while i < n && best.squared_distance > 0
            invariant
                n == points@.len(),
                2 <= i <= n,
                is_pair_of(points@, best),
                best.point_a < i,
                best.point_b < i,
                no_pair_below_upto(points@, i as int, best.squared_distance as int),
                side >= 1,
                best.squared_distance > 0 ==> side * side >= best.squared_distance,
                grid_holds(points@, grid@, side as int, i as int),
            decreases n - i,
        {
            let found = nearest_in_cells(points, &grid, i, side);
            let improves = match found {
                Some(c) => c.squared_distance < best.squared_distance,
                None => false,
            };
            if improves {
                let c = found.unwrap();
                proof {
                    assert forall|j: int| 0 <= j < i implies c.squared_distance <= #[trigger] sq_dist_at(
                        points@,
                        j,
                        i as int,
                    ) by {
                        lemma_sq_dist_symmetric(points@[j], points@[i as int]);
                    }
                    lemma_extend_bound(points@, i as int, c.squared_distance as int);
                    assert(no_pair_below_upto(points@, i as int, c.squared_distance as int));
                    assert(c.squared_distance <= 2 * 0xffff_ffff_ffff_ffffu128) by {
                        lemma_gap_below_sq_dist(points@[c.point_a as int], points@[i as int]);
                        super::lemma_square_bound(points@[c.point_a as int].x - points@[i as int].x);
                        super::lemma_square_bound(points@[c.point_a as int].y - points@[i as int].y);
                    }
                }
                best = c;
                if best.squared_distance > 0 {
                    side = ceil_sqrt(best.squared_distance);
                }
                grid = create_grid(points, i + 1, side);
            } else {
                proof {
                    assert forall|j: int| 0 <= j < i implies best.squared_distance <= #[trigger] sq_dist_at(
                        points@,
                        j,
                        i as int,
                    ) by {
                        if sq_dist_at(points@, j, i as int) < best.squared_distance {
                            assert(sq_dist_at(points@, j, i as int) < side * side);
                        }
                    }
                    lemma_extend_bound(points@, i as int, best.squared_distance as int);
                }
                let k = slot_of_point(&points[i], side);
                let ghost g0 = grid@;
                add_to_grid(&mut grid, k, i);
                proof {
                    lemma_grid_add(points@, g0, side as int, i as int, k, grid@[k]);
                }
            }
            i = i + 1;
        }
        proof {
            if best.squared_distance == 0 {
                assert forall|a: int, b: int| 0 <= a < n && 0 <= b < n && a != b implies best.squared_distance
                    <= #[trigger] sq_dist_at(points@, a, b) by {
                    lemma_sq_dist_symmetric(points@[a], points@[b]);
                }
            } else {
                assert(no_pair_below_upto(points@, n as int, best.squared_distance as int));
            }
        }
        Ok(best)
    }
}

} // verus!

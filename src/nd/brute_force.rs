//! The exhaustive search in any number of dimensions.
use vstd::prelude::*;

use super::{is_closest, lemma_sq_dist_symmetric, sq_dist_at, ClosestPair, ClosestPairAlgorithm, Point};
use crate::twod::PairError;

verus! {

/// Compares every pair of points.
pub struct BruteForce;

/// Pair `(i, j)` comes before pair `(a, b)` in the order of the scan.
pub open spec fn scanned_before(i: int, j: int, a: int, b: int) -> bool {
    i < a || (i == a && j < b)
}

/// `r` is a closest pair with `point_a < point_b`, and every pair `(i, j)`
/// with `i < j` that the scan meets before it is strictly farther apart.
pub open spec fn first_closest<const D: usize>(pts: Seq<Point<D>>, r: ClosestPair) -> bool {
    &&& is_closest(pts, r)
    &&& r.point_a < r.point_b
    &&& forall|i: int, j: int|
        0 <= i < j < pts.len() && scanned_before(i, j, r.point_a as int, r.point_b as int)
            ==> r.squared_distance < #[trigger] sq_dist_at(pts, i, j)
}

impl ClosestPairAlgorithm for BruteForce {
    /// The first closest pair met in the order `(0, 1), (0, 2), ..., (1, 2), ...`.
    fn execute<const D: usize>(&self, points: &[Point<D>]) -> (r: Result<ClosestPair, PairError>)
        ensures
            r matches Ok(p) ==> first_closest(points@, p),
    {
        let n = points.len();
        if n < 2 {
            return Err(PairError::InvalidInput);
        }
        let mut best = ClosestPair::euclidean(points, 0, 1);
        let mut i: usize = 0;
        while i < n
            invariant
                n == points@.len(),
                n >= 2,
                i <= n,
                best.point_a < best.point_b < n,
                best.squared_distance == sq_dist_at(points@, best.point_a as int, best.point_b as int),
                best.point_a < i || (best.point_a == 0 && best.point_b == 1),
                forall|a: int, b: int|
                    0 <= a < i && a < b < n ==> best.squared_distance <= #[trigger] sq_dist_at(points@, a, b),
                forall|a: int, b: int|
                    0 <= a < b < n && a < i && scanned_before(a, b, best.point_a as int, best.point_b as int)
                        ==> best.squared_distance < #[trigger] sq_dist_at(points@, a, b),
            decreases n - i,
        {
            let mut j: usize = i + 1;
            while j < n
                invariant
                    n == points@.len(),
                    n >= 2,
                    i < n,
                    i + 1 <= j <= n,
                    best.point_a < best.point_b < n,
                    best.squared_distance == sq_dist_at(points@, best.point_a as int, best.point_b as int),
                    best.point_a < i || (best.point_a == i && best.point_b < j) || (best.point_a == 0 && best.point_b == 1),
                    forall|a: int, b: int|
                        0 <= a < b < n && (a < i || (a == i && b < j)) ==> best.squared_distance
                            <= #[trigger] sq_dist_at(points@, a, b),
                    forall|a: int, b: int|
                        0 <= a < b < n && (a < i || (a == i && b < j))
                            && scanned_before(a, b, best.point_a as int, best.point_b as int)
                            ==> best.squared_distance < #[trigger] sq_dist_at(points@, a, b),
                decreases n - j,
            {
                let current = ClosestPair::euclidean(points, i, j);
                if current.squared_distance < best.squared_distance {
                    best = current;
                }
                j = j + 1;
            }
            i = i + 1;
        }
        proof {
            assert forall|a: int, b: int| 0 <= a < n && 0 <= b < n && a != b implies best.squared_distance
                <= #[trigger] sq_dist_at(points@, a, b) by {
                if a > b {
                    lemma_sq_dist_symmetric(points@[a], points@[b]);
                    assert(best.squared_distance <= sq_dist_at(points@, b, a));
                }
            }
        }
        Ok(best)
    }
}

} // verus!

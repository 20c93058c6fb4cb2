//! Points with a fixed number of integer coordinates, and the closest pair
//! algorithms generalised to them.
use vstd::prelude::*;

pub mod brute_force;
pub mod grid_const;

pub use brute_force::BruteForce;
pub use grid_const::GridAlgorithmConst;

use crate::twod::PairError;

verus! {

/// A point with `D` integer coordinates.
#[derive(Clone, Copy, Debug, PartialEq, Eq)]
pub struct Point<const D: usize> {
    pub coordinates: [i32; D],
}

impl<const D: usize> Point<D> {
    /// The point with the given coordinates.
    pub fn new(coordinates: [i32; D]) -> (p: Point<D>)
        ensures
            p.coordinates == coordinates,
    {
        Point { coordinates }
    }
}

/// The sum of the squared gaps of the first `k` coordinates.
pub open spec fn partial_sq_dist(a: Seq<i32>, b: Seq<i32>, k: nat) -> int
    decreases k,
{
    if k == 0 {
        0
    } else {
        partial_sq_dist(a, b, (k - 1) as nat) + (a[k - 1] - b[k - 1]) * (a[k - 1] - b[k - 1])
    }
}

/// Squared Euclidean distance between two points.
pub open spec fn sq_dist<const D: usize>(a: Point<D>, b: Point<D>) -> int {
    partial_sq_dist(a.coordinates@, b.coordinates@, D as nat)
}

/// Squared distance of two points given by their indices.
pub open spec fn sq_dist_at<const D: usize>(pts: Seq<Point<D>>, i: int, j: int) -> int {
    sq_dist(pts[i], pts[j])
}

/// Partial sums of squared gaps do not depend on the order of the points,
/// are non-negative and grow by at most `(2^32 - 1)^2` per coordinate.
pub proof fn lemma_partial_sq_dist(a: Seq<i32>, b: Seq<i32>, k: nat)
    ensures
        partial_sq_dist(a, b, k) == partial_sq_dist(b, a, k),
        0 <= partial_sq_dist(a, b, k) <= k * 0xffff_fffe_0000_0001,
    decreases k,
{
    if k > 0 {
        lemma_partial_sq_dist(a, b, (k - 1) as nat);
        let g = a[k - 1] - b[k - 1];
        crate::twod::lemma_square_bound(g);
        assert(g * g == (b[k - 1] - a[k - 1]) * (b[k - 1] - a[k - 1])) by (nonlinear_arith)
            requires g == a[k - 1] - b[k - 1];
        if g >= 0 {
            crate::twod::lemma_square_monotone(g, 0xffff_ffff);
        } else {
            crate::twod::lemma_square_monotone(-g, 0xffff_ffff);
            assert(g * g == (-g) * (-g)) by (nonlinear_arith);
        }
        assert((k - 1) * 0xffff_fffe_0000_0001 + 0xffff_fffe_0000_0001 == k * 0xffff_fffe_0000_0001)
            by (nonlinear_arith);
    }
}

/// The squared distance does not depend on the order of the two points.
pub proof fn lemma_sq_dist_symmetric<const D: usize>(a: Point<D>, b: Point<D>)
    ensures
        sq_dist(a, b) == sq_dist(b, a),
        sq_dist(a, b) >= 0,
{
    lemma_partial_sq_dist(a.coordinates@, b.coordinates@, D as nat);
}

/// The squared Euclidean distance of two points, computed exactly.
pub fn squared_distance<const D: usize>(a: &Point<D>, b: &Point<D>) -> (d: u128)
    ensures
        d == sq_dist(*a, *b),
{
    let mut sum: u128 = 0;
    let mut k: usize = 0;
    while k < D
        invariant
            k <= D,
            sum == partial_sq_dist(a.coordinates@, b.coordinates@, k as nat),
        decreases D - k,
    {
        proof {
            lemma_partial_sq_dist(a.coordinates@, b.coordinates@, (k + 1) as nat);
            assert((k + 1) * 0xffff_fffe_0000_0001 <= 0x1_0000_0000_0000_0000 * 0xffff_fffe_0000_0001)
                by (nonlinear_arith)
                requires k + 1 <= 0x1_0000_0000_0000_0000;
        }
        sum = sum + crate::twod::squared_gap(a.coordinates[k], b.coordinates[k]);
        k = k + 1;
    }
    sum
}

/// Two points of a point set, by their indices, and their squared distance.
#[derive(Clone, Copy, Debug, PartialEq, Eq, Structural)]
pub struct ClosestPair {
    pub point_a: usize,
    pub point_b: usize,
    pub squared_distance: u128,
}

impl ClosestPair {
    /// The pair of the points at indices `a` and `b` of `points`.
    pub fn euclidean<const D: usize>(points: &[Point<D>], a: usize, b: usize) -> (r: ClosestPair)
        requires
            a < points@.len(),
            b < points@.len(),
        ensures
            r.point_a == a,
            r.point_b == b,
            r.squared_distance == sq_dist_at(points@, a as int, b as int),
    {
        ClosestPair { point_a: a, point_b: b, squared_distance: squared_distance(&points[a], &points[b]) }
    }
}

/// `r` is a closest pair of `pts`.
pub open spec fn is_closest<const D: usize>(pts: Seq<Point<D>>, r: ClosestPair) -> bool {
    &&& r.point_a < pts.len()
    &&& r.point_b < pts.len()
    &&& r.point_a != r.point_b
    &&& r.squared_distance == sq_dist_at(pts, r.point_a as int, r.point_b as int)
    &&& forall|i: int, j: int|
        0 <= i < pts.len() && 0 <= j < pts.len() && i != j ==> r.squared_distance <= #[trigger] sq_dist_at(
            pts,
            i,
            j,
        )
}

/// What every algorithm in `D` dimensions offers.
pub trait ClosestPairAlgorithm {
    /// A closest pair of `points`, or an error when there are fewer than two.
    fn execute<const D: usize>(&self, points: &[Point<D>]) -> (r: Result<ClosestPair, PairError>)
        ensures
            points@.len() < 2 <==> r == Err::<ClosestPair, PairError>(PairError::InvalidInput),
            r matches Ok(p) ==> is_closest(points@, p),
    ;
}

} // verus!

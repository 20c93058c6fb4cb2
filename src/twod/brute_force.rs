//! The exhaustive search over all pairs.
use vstd::prelude::*;

use super::{lemma_sq_dist_symmetric, Color, Drawing, sq_dist_at, is_closest, ClosestPair, ClosestPairAlgorithm, PairError, Point};

verus! {

/// Compares every pair of points.
pub struct BruteForce;

/// Pair `(i, j)` comes before pair `(a, b)` in the order of the scan.
pub open spec fn scanned_before(i: int, j: int, a: int, b: int) -> bool {
    i < a || (i == a && j < b)
}

/// Every pair `(i, j)` with `i < j` that the scan meets before `(a, b)` is
/// strictly farther apart than `d`, and no pair at all is closer.
pub open spec fn first_closest(pts: Seq<Point>, r: ClosestPair) -> bool {
    &&& is_closest(pts, r)
    &&& r.point_a < r.point_b
    &&& forall|i: int, j: int|
        0 <= i < j < pts.len() && scanned_before(i, j, r.point_a as int, r.point_b as int)
            ==> r.squared_distance < #[trigger] sq_dist_at(pts, i, j)
}

impl BruteForce {
    /// The first closest pair in the order `(0, 1), (0, 2), ..., (1, 2), ...`.
    pub fn search(points: &[Point]) -> (r: ClosestPair)
        requires
            points@.len() >= 2,
        ensures
            first_closest(points@, r),
    {
        let n = points.len();
        let mut best = ClosestPair::euclidean(points, 0, 1);
        let mut i: usize = 0;
        while i < n
            invariant
                n == points@.len(),
                n >= 2,
                0 <= i <= n,
                best.point_a < best.point_b < n,
                best.squared_distance == sq_dist_at(points@, best.point_a as int, best.point_b as int),
                best.point_a < i || (best.point_a == 0 && best.point_b == 1),
                forall|a: int, b: int|
                    0 <= a < i && a < b < n ==> best.squared_distance <= #[trigger] sq_dist_at(points@, a, b),
                forall|a: int, b: int|
                    0 <= a < b < n && a < i && scanned_before(a, b, best.point_a as int, best.point_b as int)
                        ==> best.squared_distance < #[trigger] sq_dist_at(points@, a, b),
            decreases n - i,
        {
            let mut j: usize = i + 1;
            while j < n
                invariant
                    n == points@.len(),
                    n >= 2,
                    0 <= i < n,
                    i + 1 <= j <= n,
                    best.point_a < best.point_b < n,
                    best.squared_distance == sq_dist_at(points@, best.point_a as int, best.point_b as int),
                    best.point_a < i || (best.point_a == i && best.point_b < j) || (best.point_a == 0 && best.point_b == 1),
                    forall|a: int, b: int|
                        0 <= a < b < n && (a < i || (a == i && b < j))
                            ==> best.squared_distance <= #[trigger] sq_dist_at(points@, a, b),
                    forall|a: int, b: int|
                        0 <= a < b < n && (a < i || (a == i && b < j))
                            && scanned_before(a, b, best.point_a as int, best.point_b as int)
                            ==> best.squared_distance < #[trigger] sq_dist_at(points@, a, b),
                decreases n - j,
            {
                let current = ClosestPair::euclidean(points, i, j);
                if current.squared_distance < best.squared_distance {
                    best = current;
                }
                j = j + 1;
            }
            i = i + 1;
        }
        proof {
            assert forall|a: int, b: int|
                0 <= a < points@.len() && 0 <= b < points@.len() && a != b
                    implies best.squared_distance <= #[trigger] sq_dist_at(points@, a, b) by {
                if a > b {
                    lemma_sq_dist_symmetric(points@[a], points@[b]);
                    assert(best.squared_distance <= sq_dist_at(points@, b, a));
                }
            }
        }
        best
    }
}

/// The number of pairs `(a, b)` with `a < i` and `a < b < n`.
pub open spec fn pairs_before(n: int, i: int) -> int
    decreases i,
{
    if i <= 0 {
        0
    } else {
        pairs_before(n, i - 1) + (n - i)
    }
}

/// There are `n * (n - 1) / 2` pairs of `n` points.
pub proof fn lemma_pair_count(n: int, i: int)
    requires
        0 <= i <= n,
    ensures
        2 * pairs_before(n, i) == 2 * i * n - i * (i + 1),
    decreases i,
{
    if i > 0 {
        lemma_pair_count(n, i - 1);
        assert(2 * pairs_before(n, i) == 2 * pairs_before(n, i - 1) + 2 * (n - i));
        assert((i - 1) * ((i - 1) + 1) == (i - 1) * i) by (nonlinear_arith);
        assert(2 * (i - 1) * n - (i - 1) * i + 2 * (n - i) == 2 * i * n - i * (i + 1)) by (nonlinear_arith);
    } else {
        assert(2 * i * n - i * (i + 1) == 0) by (nonlinear_arith)
            requires i == 0;
    }
}

/// The frame for the pair `(i, j)`: point `i` in red, every point in white
/// with a white line from point `i` to it, except to `j` and to the best
/// pair, then the pair `(i, j)` in green and the best pair so far in red.
pub fn pair_frame(points: &[Point], i: usize, j: usize, best: ClosestPair) -> (r: Vec<Drawing>)
    requires
        i < points@.len(),
        j < points@.len(),
        best.point_a < points@.len(),
        best.point_b < points@.len(),
    ensures
        r@.len() >= 3,
        r@[0] == Drawing::Point(points@[i as int], Color::Red),
        r@[r@.len() - 2] == Drawing::Line(points@[i as int], points@[j as int], Color::Green),
        r@[r@.len() - 1] == Drawing::Line(
            points@[best.point_a as int],
            points@[best.point_b as int],
            Color::Red,
        ),
{
    let mut frame: Vec<Drawing> = Vec::new();
    frame.push(Drawing::Point(points[i], Color::Red));
    let mut k: usize = 0;
    while k < points.len()
        invariant
            i < points@.len(),
            k <= points@.len(),
            frame@.len() >= 1,
            frame@[0] == Drawing::Point(points@[i as int], Color::Red),
        decreases points@.len() - k,
    {
        frame.push(Drawing::Point(points[k], Color::White));
        let is_current = k == j;
        let is_best = best.point_a == i && best.point_b == k;
        if !is_current && !is_best {
            frame.push(Drawing::Line(points[i], points[k], Color::White));
        }
        k = k + 1;
    }
    frame.push(Drawing::Line(points[i], points[j], Color::Green));
    frame.push(Drawing::Line(points[best.point_a], points[best.point_b], Color::Red));
    frame
}

/// The position of the frame of pair `(i, j)` among `n` points.
pub open spec fn frame_index(n: int, i: int, j: int) -> int {
    pairs_before(n, i) + (j - i - 1)
}

/// Counting pairs grows with the first index.
pub proof fn lemma_pairs_before_monotone(n: int, p: int, i: int)
    requires
        0 <= p <= i <= n,
    ensures
        pairs_before(n, p) <= pairs_before(n, i),
    decreases i - p,
{
    if p < i {
        lemma_pairs_before_monotone(n, p, i - 1);
    }
}

/// Frames of pairs met earlier in the scan come earlier.
pub proof fn lemma_frame_index_order(n: int, p: int, q: int, i: int, j: int)
    requires
        0 <= p < q < n,
        0 <= i < j <= n,
        scanned_before(p, q, i, j),
    ensures
        0 <= frame_index(n, p, q) < frame_index(n, i, j),
{
    lemma_pairs_before_monotone(n, 0, p);
    if p < i {
        lemma_pairs_before_monotone(n, p + 1, i);
        assert(pairs_before(n, p + 1) == pairs_before(n, p) + (n - p - 1));
    }
}

/// `(a, b)` is the first closest pair among the pairs that the scan meets
/// before `(i, j)`, or `(0, 1)` when there are none.
pub open spec fn first_closest_before(pts: Seq<Point>, a: int, b: int, i: int, j: int) -> bool {
    &&& 0 <= a < b < pts.len()
    &&& scanned_before(a, b, i, j) || (a == 0 && b == 1)
    &&& forall|p: int, q: int|
        0 <= p < q < pts.len() && scanned_before(p, q, i, j) ==> sq_dist_at(pts, a, b) <= #[trigger] sq_dist_at(
            pts,
            p,
            q,
        )
    &&& forall|p: int, q: int|
        0 <= p < q < pts.len() && scanned_before(p, q, a, b) ==> sq_dist_at(pts, a, b) < #[trigger] sq_dist_at(
            pts,
            p,
            q,
        )
}

/// The frame of pair `(i, j)` starts with point `i` in red and ends with
/// the pair `(i, j)` in green and the first closest pair met before it in
/// red.
pub open spec fn pair_frame_shows(pts: Seq<Point>, frame: Seq<Drawing>, i: int, j: int) -> bool {
    &&& frame.len() >= 3
    &&& frame[0] == Drawing::Point(pts[i], Color::Red)
    &&& frame[frame.len() - 2] == Drawing::Line(pts[i], pts[j], Color::Green)
    &&& exists|a: int, b: int|
        first_closest_before(pts, a, b, i, j) && frame[frame.len() - 1] == Drawing::Line(
            pts[a],
            pts[b],
            Color::Red,
        )
}

impl BruteForce {
    /// One frame for each pair `(i, j)` with `i < j`, in the order of the
    /// search, each showing that pair and the best pair found before it.
    pub fn frames(points: &[Point]) -> (r: Vec<Vec<Drawing>>)
        ensures
            2 * r@.len() == points@.len() * (points@.len() - 1),
            points@.len() < 2 ==> r@.len() == 0,
            forall|i: int, j: int|
                0 <= i < j < points@.len() ==> pair_frame_shows(
                    points@,
                    (#[trigger] r@[frame_index(points@.len() as int, i, j)])@,
                    i,
                    j,
                ),
    {
        let n = points.len();
        let mut frames: Vec<Vec<Drawing>> = Vec::new();
        if n < 2 {
            assert(n * (n - 1) == 0) by (nonlinear_arith)
                requires n < 2;
            return frames;
        }
        let mut best = ClosestPair::euclidean(points, 0, 1);
        let mut i: usize = 0;
        while i < n
            invariant
                n == points@.len(),
                n >= 2,
                i <= n,
                best.point_a < best.point_b < n,
                best.squared_distance == sq_dist_at(points@, best.point_a as int, best.point_b as int),
                i < n ==> first_closest_before(points@, best.point_a as int, best.point_b as int, i as int, i + 1),
                frames@.len() == pairs_before(n as int, i as int),
                forall|p: int, q: int|
                    0 <= p < q < n && p < i ==> pair_frame_shows(
                        points@,
                        (#[trigger] frames@[frame_index(n as int, p, q)])@,
                        p,
                        q,
                    ),
            decreases n - i,
        {
            let mut j: usize = i + 1;
            while j < n
                invariant
                    n == points@.len(),
                    n >= 2,
                    i < n,
                    i + 1 <= j <= n,
                    best.point_a < best.point_b < n,
                    best.squared_distance == sq_dist_at(points@, best.point_a as int, best.point_b as int),
                    first_closest_before(points@, best.point_a as int, best.point_b as int, i as int, j as int),
                    frames@.len() == frame_index(n as int, i as int, j as int),
                    forall|p: int, q: int|
                        0 <= p < q < n && scanned_before(p, q, i as int, j as int) ==> pair_frame_shows(
                            points@,
                            (#[trigger] frames@[frame_index(n as int, p, q)])@,
                            p,
                            q,
                        ),
                decreases n - j,
            {
                let frame = pair_frame(points, i, j, best);
                let ghost before = frames@;
                frames.push(frame);
                proof {
                    assert(frames@[frame_index(n as int, i as int, j as int)] == frame);
                    assert(pair_frame_shows(points@, frame@, i as int, j as int));
                    assert forall|p: int, q: int|
                        0 <= p < q < n && scanned_before(p, q, i as int, j + 1) implies pair_frame_shows(
                            points@,
                            (#[trigger] frames@[frame_index(n as int, p, q)])@,
                            p,
                            q,
                        ) by {
                        if scanned_before(p, q, i as int, j as int) {
                            lemma_frame_index_order(n as int, p, q, i as int, j as int);
                            assert(frames@[frame_index(n as int, p, q)] == before[frame_index(n as int, p, q)]);
                        }
                    }
                }
                let current = ClosestPair::euclidean(points, i, j);
                if current.squared_distance < best.squared_distance {
                    best = current;
                }
                j = j + 1;
            }
            proof {
                if i + 1 < n {
                    assert(pairs_before(n as int, i + 1) == pairs_before(n as int, i as int) + (n - i - 1));
                    assert forall|p: int, q: int|
                        0 <= p < q < n && scanned_before(p, q, i + 1, i + 2) implies sq_dist_at(
                            points@,
                            best.point_a as int,
                            best.point_b as int,
                        ) <= #[trigger] sq_dist_at(points@, p, q) by {
                        assert(scanned_before(p, q, i as int, n as int));
                    }
                }
            }
            i = i + 1;
        }
        proof {
            lemma_pair_count(n as int, n as int);
            assert(2 * n * n - n * (n + 1) == n * (n - 1)) by (nonlinear_arith);
        }
        frames
    }
}

impl ClosestPairAlgorithm for BruteForce {
    fn name(&self) -> &'static str {
        "brute force"
    }

    fn limit(&self) -> (r: usize)
        ensures
            r == 10_000,
    {
        10_000
    }

    /// One frame for each pair `(i, j)` with `i < j`, in the order of the scan.
    fn drawings(&self, points: &[Point]) -> (r: Vec<Vec<Drawing>>)
        ensures
            2 * r@.len() == points@.len() * (points@.len() - 1),
            forall|i: int, j: int|
                0 <= i < j < points@.len() ==> pair_frame_shows(
                    points@,
                    (#[trigger] r@[frame_index(points@.len() as int, i, j)])@,
                    i,
                    j,
                ),
    {
        BruteForce::frames(points)
    }

    /// The first closest pair met in the order `(0, 1), (0, 2), ..., (1, 2), ...`.
    fn execute(&self, points: &[Point]) -> (r: Result<ClosestPair, PairError>)
        ensures
            r matches Ok(p) ==> first_closest(points@, p),
    {
        if points.len() < 2 {
            Err(PairError::InvalidInput)
        } else {
            Ok(BruteForce::search(points))
        }
    }
}

} // verus!

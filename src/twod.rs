//! Points in the plane, the pair that an algorithm reports, and the
//! contract that every planar algorithm meets.
use vstd::prelude::*;

pub mod brute_force;
pub mod ordering;
pub mod divide_and_conquer;
pub mod grid;
pub mod grid_const;
pub mod sweep_line;

pub mod divide_and_conquer_presortedy;

pub use brute_force::BruteForce;
pub use divide_and_conquer::DivideAndConquer;
pub use grid::GridAlgorithm;
pub use grid_const::GridAlgorithmConst;
pub use sweep_line::SweepLine;

pub use divide_and_conquer_presortedy::DivideAndConquerPresortedY;

verus! {

/// A point of the plane with integer coordinates.
#[derive(Clone, Copy, Debug, PartialEq, Eq, Structural)]
pub struct Point {
    pub x: i32,
    pub y: i32,
}

impl Point {
    /// The point `(x, y)`.
    pub fn new(x: i32, y: i32) -> (p: Point)
        ensures
            p.x == x,
            p.y == y,
    {
        Point { x, y }
    }
}

/// Squared Euclidean distance between two points.
pub open spec fn sq_dist(a: Point, b: Point) -> int {
    (a.x - b.x) * (a.x - b.x) + (a.y - b.y) * (a.y - b.y)
}

/// Squared distance of two points given by their indices.
pub open spec fn sq_dist_at(pts: Seq<Point>, i: int, j: int) -> int {
    sq_dist(pts[i], pts[j])
}

/// The square of a gap between two `i32` values fits in a `u64`.
pub proof fn lemma_square_bound(d: int)
    requires
        -0x1_0000_0000 < d < 0x1_0000_0000,
    ensures
        0 <= d * d <= 0xffff_ffff_ffff_ffff,
{
    if d >= 0 {
        assert(d * d <= d * 0xffff_ffff) by (nonlinear_arith)
            requires 0 <= d <= 0xffff_ffff;
        assert(d * 0xffff_ffff <= 0xffff_ffff * 0xffff_ffff) by (nonlinear_arith)
            requires 0 <= d <= 0xffff_ffff;
    } else {
        assert((-d) * (-d) <= (-d) * 0xffff_ffff) by (nonlinear_arith)
            requires 0 <= -d <= 0xffff_ffff;
        assert((-d) * 0xffff_ffff <= 0xffff_ffff * 0xffff_ffff) by (nonlinear_arith)
            requires 0 <= -d <= 0xffff_ffff;
        assert(d * d == (-d) * (-d)) by (nonlinear_arith);
    }
}

/// The squared distance does not depend on the order of the two points.
pub proof fn lemma_sq_dist_symmetric(a: Point, b: Point)
    ensures
        sq_dist(a, b) == sq_dist(b, a),
        sq_dist(a, b) >= 0,
{
    assert((a.x - b.x) * (a.x - b.x) == (b.x - a.x) * (b.x - a.x)) by (nonlinear_arith);
    assert((a.y - b.y) * (a.y - b.y) == (b.y - a.y) * (b.y - a.y)) by (nonlinear_arith);
    assert((a.x - b.x) * (a.x - b.x) >= 0) by (nonlinear_arith);
    assert((a.y - b.y) * (a.y - b.y) >= 0) by (nonlinear_arith);
}

/// Each coordinate gap, squared, is at most the squared distance.
pub proof fn lemma_gap_below_sq_dist(a: Point, b: Point)
    ensures
        (a.x - b.x) * (a.x - b.x) <= sq_dist(a, b),
        (a.y - b.y) * (a.y - b.y) <= sq_dist(a, b),
{
    assert((a.x - b.x) * (a.x - b.x) >= 0) by (nonlinear_arith);
    assert((a.y - b.y) * (a.y - b.y) >= 0) by (nonlinear_arith);
}

/// Squaring is monotone on non-negative numbers.
pub proof fn lemma_square_monotone(u: int, v: int)
    requires
        0 <= u <= v,
    ensures
        u * u <= v * v,
{
    assert(u * u <= u * v) by (nonlinear_arith)
        requires 0 <= u <= v;
    assert(u * v <= v * v) by (nonlinear_arith)
        requires 0 <= u <= v;
}

/// The square of the gap between two coordinates, computed exactly.
pub fn squared_gap(a: i32, b: i32) -> (d: u128)
    ensures
        d == (a - b) * (a - b),
        d <= 0xffff_ffff_ffff_ffff,
{
    let g: i64 = a as i64 - b as i64;
    proof {
        lemma_square_bound(g as int);
    }
    let m: u128 = if g >= 0 { g as u128 } else { (-g) as u128 };
    proof {
        assert(m * m == g * g) by (nonlinear_arith)
            requires m == g || m == -g;
    }
    m * m
}

/// The squared Euclidean distance of two points, computed exactly.
pub fn squared_distance(a: &Point, b: &Point) -> (d: u128)
    ensures
        d == sq_dist(*a, *b),
{
    squared_gap(a.x, b.x) + squared_gap(a.y, b.y)
}

/// Two points of a point set, by their indices, and their squared distance.
#[derive(Clone, Copy, Debug, PartialEq, Eq, Structural)]
pub struct ClosestPair {
    pub point_a: usize,
    pub point_b: usize,
    pub squared_distance: u128,
}

impl ClosestPair {
    /// The pair of the points at indices `a` and `b` of `points`.
    pub fn euclidean(points: &[Point], a: usize, b: usize) -> (r: ClosestPair)
        requires
            a < points@.len(),
            b < points@.len(),
        ensures
            r.point_a == a,
            r.point_b == b,
            r.squared_distance == sq_dist_at(points@, a as int, b as int),
    {
        ClosestPair { point_a: a, point_b: b, squared_distance: squared_distance(&points[a], &points[b]) }
    }
}

/// `r` names two distinct points of `pts` and their squared distance.
pub open spec fn is_pair_of(pts: Seq<Point>, r: ClosestPair) -> bool {
    &&& r.point_a < pts.len()
    &&& r.point_b < pts.len()
    &&& r.point_a != r.point_b
    &&& r.squared_distance == sq_dist_at(pts, r.point_a as int, r.point_b as int)
}

/// No two distinct points of `pts` are closer than `d` (squared).
pub open spec fn no_pair_below(pts: Seq<Point>, d: int) -> bool {
    forall|i: int, j: int|
        0 <= i < pts.len() && 0 <= j < pts.len() && i != j ==> d <= #[trigger] sq_dist_at(pts, i, j)
}

/// No two distinct indices of `ids` name points closer than `d` (squared).
pub open spec fn bounded_among(pts: Seq<Point>, ids: Seq<usize>, d: int) -> bool {
    forall|i: usize, j: usize|
        ids.contains(i) && ids.contains(j) && i != j ==> d <= #[trigger] sq_dist_at(pts, i as int, j as int)
}

/// `r` is a closest pair among the points of `pts` whose indices are in `ids`.
pub open spec fn closest_among(pts: Seq<Point>, ids: Seq<usize>, r: ClosestPair) -> bool {
    &&& is_pair_of(pts, r)
    &&& ids.contains(r.point_a)
    &&& ids.contains(r.point_b)
    &&& bounded_among(pts, ids, r.squared_distance as int)
}

/// The indices `0, 1, ..., n - 1`.
pub open spec fn all_ids(n: nat) -> Seq<usize> {
    Seq::new(n, |i: int| i as usize)
}

/// A closest pair among all indices is a closest pair of the point set.
pub proof fn lemma_closest_among_all(pts: Seq<Point>, r: ClosestPair)
    requires
        pts.len() <= usize::MAX,
        closest_among(pts, all_ids(pts.len()), r),
    ensures
        is_closest(pts, r),
{
    let ids = all_ids(pts.len());
    assert forall|i: int, j: int|
        0 <= i < pts.len() && 0 <= j < pts.len() && i != j
            implies r.squared_distance <= #[trigger] sq_dist_at(pts, i, j) by {
        assert(ids[i] == i as usize);
        assert(ids[j] == j as usize);
        assert(ids.contains(i as usize));
        assert(ids.contains(j as usize));
    }
}

/// A line across the whole plane at `x`.
pub fn vertical(x: i32, color: Color) -> (r: Drawing)
    ensures
        r == Drawing::Line(Point { x, y: i32::MIN }, Point { x, y: i32::MAX }, color),
{
    Drawing::Line(Point { x, y: i32::MIN }, Point { x, y: i32::MAX }, color)
}

/// The indices `0, 1, ..., n - 1` as a vector.
pub fn index_vec(n: usize) -> (r: Vec<usize>)
    ensures
        r@ == all_ids(n as nat),
{
    let mut r: Vec<usize> = Vec::new();
    let mut k: usize = 0;
    while k < n
        invariant
            k <= n,
            r@ == all_ids(k as nat),
        decreases n - k,
    {
        r.push(k);
        k = k + 1;
        assert(r@ == all_ids(k as nat));
    }
    r
}

/// `r` is a closest pair of `pts`.
pub open spec fn is_closest(pts: Seq<Point>, r: ClosestPair) -> bool {
    is_pair_of(pts, r) && no_pair_below(pts, r.squared_distance as int)
}

/// The colour of a drawn primitive.
#[derive(Clone, Copy, Debug, PartialEq, Eq, Structural)]
pub enum Color {
    Red,
    White,
    Green,
}

/// One primitive of an animation frame.
#[derive(Clone, Copy, Debug, PartialEq, Eq, Structural)]
pub enum Drawing {
    Point(Point, Color),
    Line(Point, Point, Color),
}

/// Why a point set has no closest pair.
#[derive(Clone, Copy, Debug, PartialEq, Eq, Structural)]
pub enum PairError {
    /// Fewer than two points were given.
    InvalidInput,
}

/// What every planar algorithm offers: a label, an advisory input size and
/// the search itself.
pub trait ClosestPairAlgorithm {
    /// A stable label for the algorithm.
    fn name(&self) -> &'static str;

    /// The largest input size for which the algorithm is practical.
    fn limit(&self) -> usize;

    /// A closest pair of `points`, or an error when there are fewer than two.
    fn execute(&self, points: &[Point]) -> (r: Result<ClosestPair, PairError>)
        ensures
            points@.len() < 2 <==> r == Err::<ClosestPair, PairError>(PairError::InvalidInput),
            r matches Ok(p) ==> is_closest(points@, p),
    ;

    /// Frames that show the search step by step; none for fewer than two
    /// points.
    fn drawings(&self, points: &[Point]) -> (r: Vec<Vec<Drawing>>)
        ensures
            points@.len() < 2 ==> r@.len() == 0,
    ;
}

/// Any two closest pairs of one point set are equally far apart, so every
/// algorithm reports the distance that the exhaustive search reports.
pub proof fn lemma_closest_distance_unique(pts: Seq<Point>, r1: ClosestPair, r2: ClosestPair)
    requires
        is_closest(pts, r1),
        is_closest(pts, r2),
    ensures
        r1.squared_distance == r2.squared_distance,
{
    assert(r1.squared_distance <= sq_dist_at(pts, r2.point_a as int, r2.point_b as int));
    assert(r2.squared_distance <= sq_dist_at(pts, r1.point_a as int, r1.point_b as int));
}

/// Two pairs of indices that are not the same pair have different squared
/// distances.
pub open spec fn no_ties(pts: Seq<Point>) -> bool {
    forall|a: int, b: int, c: int, d: int|
        0 <= a < b < pts.len() && 0 <= c < d < pts.len() && (a != c || b != d) ==> #[trigger] sq_dist_at(
            pts,
            a,
            b,
        ) != #[trigger] sq_dist_at(pts, c, d)
}

/// When no two pairs are equally far apart, the closest pair is determined
/// up to the order of its two points: running any algorithm again on the
/// same points reports the same two points.
pub proof fn lemma_closest_pair_unique(pts: Seq<Point>, r1: ClosestPair, r2: ClosestPair)
    requires
        is_closest(pts, r1),
        is_closest(pts, r2),
        no_ties(pts),
    ensures
        (r1.point_a == r2.point_a && r1.point_b == r2.point_b) || (r1.point_a == r2.point_b
            && r1.point_b == r2.point_a),
{
    lemma_closest_distance_unique(pts, r1, r2);
    let (a, b) = if r1.point_a < r1.point_b {
        (r1.point_a as int, r1.point_b as int)
    } else {
        (r1.point_b as int, r1.point_a as int)
    };
    let (c, d) = if r2.point_a < r2.point_b {
        (r2.point_a as int, r2.point_b as int)
    } else {
        (r2.point_b as int, r2.point_a as int)
    };
    lemma_sq_dist_symmetric(pts[a], pts[b]);
    lemma_sq_dist_symmetric(pts[c], pts[d]);
    assert(sq_dist_at(pts, a, b) == sq_dist_at(pts, c, d));
}

/// Of two points, the closest pair is those two.
pub proof fn lemma_closest_of_two(pts: Seq<Point>, r: ClosestPair)
    requires
        pts.len() == 2,
        is_closest(pts, r),
    ensures
        (r.point_a == 0 && r.point_b == 1) || (r.point_a == 1 && r.point_b == 0),
        r.squared_distance == sq_dist(pts[0], pts[1]),
{
    lemma_sq_dist_symmetric(pts[0], pts[1]);
}

/// Of three points, the closest pair is at the least of the three
/// distances.
pub proof fn lemma_closest_of_three(pts: Seq<Point>, r: ClosestPair)
    requires
        pts.len() == 3,
        is_closest(pts, r),
    ensures
        r.squared_distance == sq_dist(pts[0], pts[1]) || r.squared_distance == sq_dist(pts[0], pts[2])
            || r.squared_distance == sq_dist(pts[1], pts[2]),
        r.squared_distance <= sq_dist(pts[0], pts[1]),
        r.squared_distance <= sq_dist(pts[0], pts[2]),
        r.squared_distance <= sq_dist(pts[1], pts[2]),
{
    assert(r.squared_distance <= sq_dist_at(pts, 0, 1));
    assert(r.squared_distance <= sq_dist_at(pts, 0, 2));
    assert(r.squared_distance <= sq_dist_at(pts, 1, 2));
    lemma_sq_dist_symmetric(pts[0], pts[1]);
    lemma_sq_dist_symmetric(pts[0], pts[2]);
    lemma_sq_dist_symmetric(pts[1], pts[2]);
}

/// When two points coincide, the closest pair is at distance zero.
pub proof fn lemma_duplicate_found(pts: Seq<Point>, r: ClosestPair, i: int, j: int)
    requires
        is_closest(pts, r),
        0 <= i < pts.len(),
        0 <= j < pts.len(),
        i != j,
        pts[i] == pts[j],
    ensures
        r.squared_distance == 0,
{
    assert(r.squared_distance <= sq_dist_at(pts, i, j));
}

} // verus!

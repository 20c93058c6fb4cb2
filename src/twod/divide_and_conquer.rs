//! Divide and conquer that sorts each strip by `y` anew.
use vstd::prelude::*;

use super::divide_and_conquer_presortedy::strip_closest as scan_strip;
use super::ordering::{copy_range, lemma_same_elements, lemma_sorted_no_duplicates, precedes,
    sort_indices, sorted_by, valid_ids, Axis};
use super::{
    bounded_among, closest_among, index_vec, is_pair_of, lemma_closest_among_all,
    lemma_gap_below_sq_dist, lemma_square_monotone, lemma_sq_dist_symmetric, sq_dist_at, squared_gap,
    vertical, ClosestPair, ClosestPairAlgorithm, Color, Drawing, PairError, Point,
};

verus! {

/// Divide and conquer over the points sorted by `x`.
pub struct DivideAndConquer;

/// The closest pair among two or three indices, the first one found in the
/// order `(0, 1), (0, 2), (1, 2)` on ties.
pub fn closest_of_few(points: &[Point], ids: &[usize]) -> (r: ClosestPair)
    requires
        valid_ids(points@, ids@),
        2 <= ids@.len() <= 3,
    ensures
        closest_among(points@, ids@, r),
{
    let p01 = ClosestPair::euclidean(points, ids[0], ids[1]);
    proof {
        assert(ids@.contains(ids@[0]));
        assert(ids@.contains(ids@[1]));
        lemma_sq_dist_symmetric(points@[ids@[0] as int], points@[ids@[1] as int]);
    }
    if ids.len() == 2 {
        proof {
            assert forall|i: usize, j: usize| ids@.contains(i) && ids@.contains(j) && i != j
                implies p01.squared_distance <= #[trigger] sq_dist_at(points@, i as int, j as int) by {
            }
        }
        return p01;
    }
    let p02 = ClosestPair::euclidean(points, ids[0], ids[2]);
    let p12 = ClosestPair::euclidean(points, ids[1], ids[2]);
    let mut best = p01;
    if p02.squared_distance < best.squared_distance {
        best = p02;
    }
    if p12.squared_distance < best.squared_distance {
        best = p12;
    }
    proof {
        assert(ids@.contains(ids@[2]));
        lemma_sq_dist_symmetric(points@[ids@[0] as int], points@[ids@[2] as int]);
        lemma_sq_dist_symmetric(points@[ids@[1] as int], points@[ids@[2] as int]);
        assert forall|i: usize, j: usize| ids@.contains(i) && ids@.contains(j) && i != j
            implies best.squared_distance <= #[trigger] sq_dist_at(points@, i as int, j as int) by {
        }
    }
    best
}

/// The indices of `ids`, in their order, whose `x` lies closer to `mid_x`
/// than the square root of `d`.
pub fn collect_strip(points: &[Point], ids: &[usize], mid_x: i32, d: u128) -> (r: Vec<usize>)
    requires
        forall|k: int| 0 <= k < ids@.len() ==> #[trigger] ids@[k] < points@.len(),
    ensures
        forall|k: int| 0 <= k < r@.len() ==> ids@.contains(#[trigger] r@[k]),
        forall|k: int| 0 <= k < r@.len() ==> #[trigger] r@[k] < points@.len(),
        forall|x: usize|
            ids@.contains(x) && (points@[x as int].x - mid_x) * (points@[x as int].x - mid_x) < d
                ==> #[trigger] r@.contains(x),
        forall|axis: Axis| #[trigger] sorted_by(points@, axis, ids@) ==> sorted_by(points@, axis, r@),
{
    let mut r: Vec<usize> = Vec::new();
    let mut k: usize = 0;
    while k < ids.len()
        invariant
            forall|t: int| 0 <= t < ids@.len() ==> #[trigger] ids@[t] < points@.len(),
            k <= ids@.len(),
            forall|t: int| 0 <= t < r@.len() ==> ids@.contains(#[trigger] r@[t]),
            forall|t: int| 0 <= t < r@.len() ==> #[trigger] r@[t] < points@.len(),
            forall|t: int|
                0 <= t < k && (points@[ids@[t] as int].x - mid_x) * (points@[ids@[t] as int].x - mid_x) < d
                    ==> r@.contains(#[trigger] ids@[t]),
            forall|axis: Axis| #[trigger] sorted_by(points@, axis, ids@) ==> sorted_by(points@, axis, r@),
            forall|axis: Axis, t: int, q: int|
                sorted_by(points@, axis, ids@) && 0 <= t < r@.len() && k <= q < ids@.len()
                    ==> #[trigger] precedes(points@, axis, r@[t], ids@[q]),
        decreases ids@.len() - k,
    {
        let x = ids[k];
        if squared_gap(points[x].x, mid_x) < d {
            let ghost old_r = r@;
            r.push(x);
            proof {
                assert(ids@[k as int] == x);
                assert forall|t: int| 0 <= t < r@.len() implies ids@.contains(#[trigger] r@[t]) by {
                    if t < old_r.len() {
                        assert(r@[t] == old_r[t]);
                    }
                }
                assert forall|t: int|
                    0 <= t < k + 1 && (points@[ids@[t] as int].x - mid_x) * (points@[ids@[t] as int].x
                        - mid_x) < d implies r@.contains(#[trigger] ids@[t]) by {
                    if t < k {
                        let w = choose|w: int| 0 <= w < old_r.len() && old_r[w] == ids@[t];
                        assert(r@[w] == ids@[t]);
                    } else {
                        assert(r@[old_r.len() as int] == x);
                    }
                }
                assert forall|axis: Axis| #[trigger] sorted_by(points@, axis, ids@) implies sorted_by(
                    points@,
                    axis,
                    r@,
                ) by {
                    assert forall|p: int, q: int| 0 <= p < q < r@.len() implies #[trigger] precedes(
                        points@,
                        axis,
                        r@[p],
                        r@[q],
                    ) by {
                        if q == old_r.len() {
                            assert(precedes(points@, axis, old_r[p], ids@[k as int]));
                        } else {
                            assert(sorted_by(points@, axis, old_r));
                        }
                    }
                }
                assert forall|axis: Axis, t: int, q: int|
                    sorted_by(points@, axis, ids@) && 0 <= t < r@.len() && k + 1 <= q < ids@.len()
                        implies #[trigger] precedes(points@, axis, r@[t], ids@[q]) by {
                    if t == old_r.len() {
                        assert(precedes(points@, axis, ids@[k as int], ids@[q]));
                    } else {
                        assert(precedes(points@, axis, old_r[t], ids@[q]));
                    }
                }
            }
        }
        k = k + 1;
    }
    r
}

/// The combining step: the pairs that cross the split line and are closer
/// than the best pair of either half all lie in the strip, so a bound on
/// the halves and a bound on the strip give a bound on the whole.
pub proof fn lemma_combine(
    pts: Seq<Point>,
    ids: Seq<usize>,
    mid: int,
    d: int,
    strip: Seq<usize>,
    r: int,
)
    requires
        valid_ids(pts, ids),
        sorted_by(pts, Axis::X, ids),
        0 <= mid < ids.len(),
        bounded_among(pts, ids.subrange(0, mid), d),
        bounded_among(pts, ids.subrange(mid, ids.len() as int), d),
        forall|x: usize|
            ids.contains(x) && (pts[x as int].x - pts[ids[mid] as int].x) * (pts[x as int].x
                - pts[ids[mid] as int].x) < d ==> #[trigger] strip.contains(x),
        bounded_among(pts, strip, r),
        r <= d,
    ensures
        bounded_among(pts, ids, r),
{
    let left = ids.subrange(0, mid);
    let right = ids.subrange(mid, ids.len() as int);
    let mx = pts[ids[mid] as int].x;
    assert forall|i: usize, j: usize| ids.contains(i) && ids.contains(j) && i != j implies r
        <= #[trigger] sq_dist_at(pts, i as int, j as int) by {
        let p = choose|p: int| 0 <= p < ids.len() && ids[p] == i;
        let q = choose|q: int| 0 <= q < ids.len() && ids[q] == j;
        if p < mid && q < mid {
            assert(left[p] == i && left[q] == j);
            assert(left.contains(i) && left.contains(j));
        } else if p >= mid && q >= mid {
            assert(right[p - mid] == i && right[q - mid] == j);
            assert(right.contains(i) && right.contains(j));
        } else {
            let (lo, hi) = if p < mid { (p, q) } else { (q, p) };
            let a = pts[ids[lo] as int];
            let b = pts[ids[hi] as int];
            assert(precedes(pts, Axis::X, ids[lo], ids[mid]));
            if hi > mid {
                assert(precedes(pts, Axis::X, ids[mid], ids[hi]));
            }
            lemma_sq_dist_symmetric(a, b);
            if sq_dist_at(pts, i as int, j as int) < d {
                lemma_gap_below_sq_dist(a, b);
                lemma_square_monotone(mx - a.x, b.x - a.x);
                lemma_square_monotone(b.x - mx, b.x - a.x);
                assert((b.x - a.x) * (b.x - a.x) == (a.x - b.x) * (a.x - b.x)) by (nonlinear_arith);
                assert((a.x - mx) * (a.x - mx) == (mx - a.x) * (mx - a.x)) by (nonlinear_arith);
                assert(ids.contains(ids[lo]));
                assert(ids.contains(ids[hi]));
                assert(strip.contains(ids[lo]));
                assert(strip.contains(ids[hi]));
            }
        }
    }
}

/// The number of frames that the recursion over `n` points shows: one for
/// each split.
pub open spec fn split_frames(n: int) -> int
    decreases n,
{
    if n <= 3 {
        0
    } else {
        split_frames(n / 2) + split_frames(n - n / 2) + 1
    }
}

/// The frame of one split: the points of both halves in white, the best
/// pair of each half in red, and the split line and the two outer lines in
/// green.
pub fn split_frame(points: &[Point], sorted_x: &[usize], mid: usize, dl: ClosestPair, dr: ClosestPair) -> (r: Vec<
    Drawing,
>)
    requires
        valid_ids(points@, sorted_x@),
        mid < sorted_x@.len(),
        is_pair_of(points@, dl),
        is_pair_of(points@, dr),
    ensures
        r@.len() == sorted_x@.len() + 5,
{
    let mut frame: Vec<Drawing> = Vec::new();
    let mut k: usize = 0;
    while k < sorted_x.len()
        invariant
            valid_ids(points@, sorted_x@),
            k <= sorted_x@.len(),
            frame@.len() == k,
        decreases sorted_x@.len() - k,
    {
        frame.push(Drawing::Point(points[sorted_x[k]], Color::White));
        k = k + 1;
    }
    frame.push(Drawing::Line(points[dl.point_a], points[dl.point_b], Color::Red));
    frame.push(Drawing::Line(points[dr.point_a], points[dr.point_b], Color::Red));
    frame.push(vertical(points[sorted_x[mid]].x, Color::Green));
    frame.push(vertical(points[sorted_x[0]].x, Color::Green));
    frame.push(vertical(points[sorted_x[sorted_x.len() - 1]].x, Color::Green));
    frame
}

/// The closest pair of the points whose indices are `sorted_x`, and, when
/// `draw` holds, a frame for every split: the frames of the left half
/// first, then those of the right half, then that of the split itself.
pub fn closest_pair_recursive(points: &[Point], sorted_x: &[usize], draw: bool) -> (r: (
    ClosestPair,
    Vec<Vec<Drawing>>,
))
    requires
        valid_ids(points@, sorted_x@),
        sorted_by(points@, Axis::X, sorted_x@),
        sorted_x@.len() >= 2,
    ensures
        closest_among(points@, sorted_x@, r.0),
        r.1@.len() == if draw { split_frames(sorted_x@.len() as int) } else { 0 },
    decreases sorted_x@.len(),
{
    let n = sorted_x.len();
    if n <= 3 {
        return (closest_of_few(points, sorted_x), Vec::new());
    }
    let mid = n / 2;
    let mid_x = points[sorted_x[mid]].x;
    let left = copy_range(sorted_x, 0, mid);
    let right = copy_range(sorted_x, mid, n);
    proof {
        lemma_halves(points@, sorted_x@, mid as int);
    }
    let (dl, mut frames) = closest_pair_recursive(points, left.as_slice(), draw);
    let (dr, mut right_frames) = closest_pair_recursive(points, right.as_slice(), draw);
    if draw {
        frames.append(&mut right_frames);
        frames.push(split_frame(points, sorted_x, mid, dl, dr));
    }
    let d = if dr.squared_distance < dl.squared_distance { dr } else { dl };
    let strip = collect_strip(points, sorted_x, mid_x, d.squared_distance);
    proof {
        assert(sorted_by(points@, Axis::X, sorted_x@));
        lemma_sorted_no_duplicates(points@, Axis::X, strip@);
    }
    let r = strip_closest(points, strip.as_slice(), d);
    proof {
        lemma_halves_contain(sorted_x@, mid as int);
        lemma_combine(
            points@,
            sorted_x@,
            mid as int,
            d.squared_distance as int,
            strip@,
            r.squared_distance as int,
        );
    }
    (r, frames)
}

/// Both halves of a valid sorted index sequence are valid and sorted.
pub proof fn lemma_halves(pts: Seq<Point>, ids: Seq<usize>, mid: int)
    requires
        valid_ids(pts, ids),
        sorted_by(pts, Axis::X, ids),
        0 <= mid <= ids.len(),
    ensures
        valid_ids(pts, ids.subrange(0, mid)),
        valid_ids(pts, ids.subrange(mid, ids.len() as int)),
        sorted_by(pts, Axis::X, ids.subrange(0, mid)),
        sorted_by(pts, Axis::X, ids.subrange(mid, ids.len() as int)),
{
    let left = ids.subrange(0, mid);
    let right = ids.subrange(mid, ids.len() as int);
    assert forall|p: int, q: int| 0 <= p < q < left.len() implies #[trigger] precedes(
        pts,
        Axis::X,
        left[p],
        left[q],
    ) by {
        assert(precedes(pts, Axis::X, ids[p], ids[q]));
    }
    assert forall|p: int, q: int| 0 <= p < q < right.len() implies #[trigger] precedes(
        pts,
        Axis::X,
        right[p],
        right[q],
    ) by {
        assert(precedes(pts, Axis::X, ids[p + mid], ids[q + mid]));
    }
    lemma_sorted_no_duplicates(pts, Axis::X, left);
    lemma_sorted_no_duplicates(pts, Axis::X, right);
    assert forall|k: int| 0 <= k < left.len() implies #[trigger] left[k] < pts.len() by {
        assert(ids[k] == left[k]);
    }
    assert forall|k: int| 0 <= k < right.len() implies #[trigger] right[k] < pts.len() by {
        assert(ids[k + mid] == right[k]);
    }
}

/// An element of either half is an element of the whole.
pub proof fn lemma_halves_contain(ids: Seq<usize>, mid: int)
    requires
        0 <= mid <= ids.len(),
    ensures
        forall|x: usize| #[trigger] ids.subrange(0, mid).contains(x) ==> ids.contains(x),
        forall|x: usize| #[trigger] ids.subrange(mid, ids.len() as int).contains(x) ==> ids.contains(x),
{
    assert forall|x: usize| #[trigger] ids.subrange(0, mid).contains(x) implies ids.contains(x) by {
        let p = choose|p: int| 0 <= p < mid && ids.subrange(0, mid)[p] == x;
        assert(ids[p] == x);
    }
    assert forall|x: usize| #[trigger] ids.subrange(mid, ids.len() as int).contains(x) implies ids.contains(x) by {
        let p = choose|p: int| 0 <= p < ids.len() - mid && ids.subrange(mid, ids.len() as int)[p] == x;
        assert(ids[p + mid] == x);
    }
}

/// Sorts the strip by `y` and scans it, starting from the pair `best`.
pub fn strip_closest(points: &[Point], strip: &[usize], best: ClosestPair) -> (r: ClosestPair)
    requires
        forall|k: int| 0 <= k < strip@.len() ==> #[trigger] strip@[k] < points@.len(),
        strip@.no_duplicates(),
        is_pair_of(points@, best),
    ensures
        is_pair_of(points@, r),
        r.squared_distance <= best.squared_distance,
        r.squared_distance == best.squared_distance ==> r == best,
        r == best || (strip@.contains(r.point_a) && strip@.contains(r.point_b)),
        bounded_among(points@, strip@, r.squared_distance as int),
{
    let sorted_y = sort_indices(points, strip, Axis::Y);
    let r = scan_strip(points, sorted_y.as_slice(), best);
    proof {
        lemma_same_elements(strip@, sorted_y@);
        assert forall|i: usize, j: usize| strip@.contains(i) && strip@.contains(j) && i != j implies r.squared_distance
            <= #[trigger] sq_dist_at(points@, i as int, j as int) by {
            assert(sorted_y@.contains(i) && sorted_y@.contains(j));
        }
    }
    r
}

impl ClosestPairAlgorithm for DivideAndConquer {
    /// One frame for each split of the recursion.
    fn drawings(&self, points: &[Point]) -> (r: Vec<Vec<Drawing>>)
        ensures
            points@.len() >= 2 ==> r@.len() == split_frames(points@.len() as int),
    {
        let n = points.len();
        if n < 2 {
            return Vec::new();
        }
        let ids = index_vec(n);
        proof {
            assert(ids@.no_duplicates());
        }
        let sorted_x = sort_indices(points, ids.as_slice(), Axis::X);
        let (_, frames) = closest_pair_recursive(points, sorted_x.as_slice(), true);
        frames
    }

    fn name(&self) -> &'static str {
        "divide and conquer"
    }

    fn limit(&self) -> (r: usize)
        ensures
            r == 10_000_000,
    {
        10_000_000
    }

    fn execute(&self, points: &[Point]) -> (r: Result<ClosestPair, PairError>) {
        let n = points.len();
        if n < 2 {
            return Err(PairError::InvalidInput);
        }
        let ids = index_vec(n);
        proof {
            assert(ids@.no_duplicates());
        }
        let sorted_x = sort_indices(points, ids.as_slice(), Axis::X);
        let (r, _) = closest_pair_recursive(points, sorted_x.as_slice(), false);
        proof {
            lemma_same_elements(ids@, sorted_x@);
            assert forall|i: usize, j: usize| ids@.contains(i) && ids@.contains(j) && i != j implies r.squared_distance
                <= #[trigger] sq_dist_at(points@, i as int, j as int) by {
                assert(sorted_x@.contains(i) && sorted_x@.contains(j));
            }
            assert(ids@.contains(r.point_a)) by { assert(sorted_x@.contains(r.point_a)); }
            assert(ids@.contains(r.point_b)) by { assert(sorted_x@.contains(r.point_b)); }
            lemma_closest_among_all(points@, r);
        }
        Ok(r)
    }
}

} // verus!

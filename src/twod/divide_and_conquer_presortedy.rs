//! Divide and conquer that carries the points in order of `y` down the
//! recursion instead of sorting each strip.
use vstd::prelude::*;

use super::divide_and_conquer::{closest_of_few, collect_strip, lemma_combine, lemma_halves,
    lemma_halves_contain};
use super::ordering::{comes_before, copy_range, lemma_same_elements, lemma_sorted_no_duplicates,
    precedes, sort_indices, sorted_by, valid_ids, Axis};
use super::{
    bounded_among, closest_among, index_vec, is_pair_of, lemma_closest_among_all,
    lemma_gap_below_sq_dist, lemma_square_monotone, lemma_sq_dist_symmetric, sq_dist_at, ClosestPair,
    ClosestPairAlgorithm, Drawing, PairError, Point,
};

verus! {

/// Divide and conquer over a list sorted by `x` and one sorted by `y`.
pub struct DivideAndConquerPresortedY;

/// Bounds over positions of a sequence carry over to its elements.
pub proof fn lemma_bounded_from_positions(pts: Seq<Point>, s: Seq<usize>, d: int)
    requires
        forall|p: int, q: int|
            0 <= p < s.len() && 0 <= q < s.len() && s[p] != s[q] ==> d <= #[trigger] sq_dist_at(
                pts,
                s[p] as int,
                s[q] as int,
            ),
    ensures
        bounded_among(pts, s, d),
{
    assert forall|i: usize, j: usize| s.contains(i) && s.contains(j) && i != j implies d
        <= #[trigger] sq_dist_at(pts, i as int, j as int) by {
        let p = choose|p: int| 0 <= p < s.len() && s[p] == i;
        let q = choose|q: int| 0 <= q < s.len() && s[q] == j;
        assert(d <= sq_dist_at(pts, s[p] as int, s[q] as int));
    }
}

/// Scans a strip sorted by `y`: each point is compared with the points
/// above it until their gap in `y` alone exceeds the best distance so far.
/// The result is `best` or a closer pair of the strip, and no two points of
/// the strip are closer than it.
pub fn strip_closest(points: &[Point], strip: &[usize], best: ClosestPair) -> (r: ClosestPair)
    requires
        valid_ids(points@, strip@),
        sorted_by(points@, Axis::Y, strip@),
        is_pair_of(points@, best),
    ensures
        is_pair_of(points@, r),
        r.squared_distance <= best.squared_distance,
        r.squared_distance == best.squared_distance ==> r == best,
        r == best || (strip@.contains(r.point_a) && strip@.contains(r.point_b)),
        bounded_among(points@, strip@, r.squared_distance as int),
{
    let n = strip.len();
    let mut cur = best;
    let mut i: usize = 0;
    while i < n
        invariant
            n == strip@.len(),
            valid_ids(points@, strip@),
            sorted_by(points@, Axis::Y, strip@),
            i <= n,
            is_pair_of(points@, cur),
            cur.squared_distance <= best.squared_distance,
            cur.squared_distance == best.squared_distance ==> cur == best,
            cur == best || (strip@.contains(cur.point_a) && strip@.contains(cur.point_b)),
            forall|p: int, q: int|
                0 <= p < i && p < q < n ==> cur.squared_distance <= #[trigger] sq_dist_at(
                    points@,
                    strip@[p] as int,
                    strip@[q] as int,
                ),
        decreases n - i,
    {
        let a = strip[i];
        let mut j: usize = i + 1;
        while j < n
            invariant
                n == strip@.len(),
                valid_ids(points@, strip@),
                sorted_by(points@, Axis::Y, strip@),
                i < n,
                a == strip@[i as int],
                i + 1 <= j <= n,
                is_pair_of(points@, cur),
                cur.squared_distance <= best.squared_distance,
                cur.squared_distance == best.squared_distance ==> cur == best,
            cur.squared_distance == best.squared_distance ==> cur == best,
                cur == best || (strip@.contains(cur.point_a) && strip@.contains(cur.point_b)),
                forall|p: int, q: int|
                    0 <= p < i && p < q < n ==> cur.squared_distance <= #[trigger] sq_dist_at(
                        points@,
                        strip@[p] as int,
                        strip@[q] as int,
                    ),
                forall|q: int|
                    i < q < j ==> cur.squared_distance <= #[trigger] sq_dist_at(
                        points@,
                        a as int,
                        strip@[q] as int,
                    ),
            ensures
                is_pair_of(points@, cur),
                cur.squared_distance <= best.squared_distance,
                cur.squared_distance == best.squared_distance ==> cur == best,
            cur.squared_distance == best.squared_distance ==> cur == best,
                cur == best || (strip@.contains(cur.point_a) && strip@.contains(cur.point_b)),
                forall|p: int, q: int|
                    0 <= p < i && p < q < n ==> cur.squared_distance <= #[trigger] sq_dist_at(
                        points@,
                        strip@[p] as int,
                        strip@[q] as int,
                    ),
                forall|q: int|
                    i < q < n ==> cur.squared_distance <= #[trigger] sq_dist_at(
                        points@,
                        a as int,
                        strip@[q] as int,
                    ),
            decreases n - j,
        {
            let b = strip[j];
            let gap = super::squared_gap(points[b].y, points[a].y);
            if gap > cur.squared_distance {
                proof {
                    assert forall|q: int| j <= q < n implies cur.squared_distance
                        <= #[trigger] sq_dist_at(points@, a as int, strip@[q] as int) by {
                        let pa = points@[a as int];
                        let pb = points@[b as int];
                        let pq = points@[strip@[q] as int];
                        assert(precedes(points@, Axis::Y, a, b));
                        if q > j {
                            assert(precedes(points@, Axis::Y, b, strip@[q]));
                        }
                        lemma_square_monotone(pb.y - pa.y, pq.y - pa.y);
                        lemma_gap_below_sq_dist(pa, pq);
                        lemma_sq_dist_symmetric(pa, pq);
                        lemma_sq_dist_symmetric(pq, pa);
                        assert((pq.y - pa.y) * (pq.y - pa.y) == (pa.y - pq.y) * (pa.y - pq.y))
                            by (nonlinear_arith);
                    }
                }
                break;
            }
            let current = ClosestPair::euclidean(points, a, b);
            if current.squared_distance < cur.squared_distance {
                proof {
                    assert(strip@[i as int] == a);
                    assert(strip@[j as int] == b);
                    assert(strip@.contains(a));
                    assert(strip@.contains(b));
                    assert(a != b);
                }
                cur = current;
            }
            j = j + 1;
        }
        i = i + 1;
    }
    proof {
        assert forall|p: int, q: int|
            0 <= p < n && 0 <= q < n && strip@[p] != strip@[q] implies cur.squared_distance
                <= #[trigger] sq_dist_at(points@, strip@[p] as int, strip@[q] as int) by {
            if q < p {
                assert(cur.squared_distance <= sq_dist_at(points@, strip@[q] as int, strip@[p] as int));
                lemma_sq_dist_symmetric(points@[strip@[q] as int], points@[strip@[p] as int]);
            }
        }
        lemma_bounded_from_positions(points@, strip@, cur.squared_distance as int);
    }
    cur
}

/// Splits `ids`, keeping their order, into the indices that come before
/// `pivot` along `x` and the others.
pub fn split_at_pivot(points: &[Point], ids: &[usize], pivot: usize) -> (r: (Vec<usize>, Vec<usize>))
    requires
        forall|k: int| 0 <= k < ids@.len() ==> #[trigger] ids@[k] < points@.len(),
        pivot < points@.len(),
        sorted_by(points@, Axis::Y, ids@),
    ensures
        sorted_by(points@, Axis::Y, r.0@),
        sorted_by(points@, Axis::Y, r.1@),
        forall|x: usize|
            #[trigger] r.0@.contains(x) <==> (ids@.contains(x) && precedes(points@, Axis::X, x, pivot)),
        forall|x: usize|
            #[trigger] r.1@.contains(x) <==> (ids@.contains(x) && !precedes(points@, Axis::X, x, pivot)),
        forall|k: int| 0 <= k < r.0@.len() ==> #[trigger] r.0@[k] < points@.len(),
        forall|k: int| 0 <= k < r.1@.len() ==> #[trigger] r.1@[k] < points@.len(),
{
    let mut left: Vec<usize> = Vec::new();
    let mut right: Vec<usize> = Vec::new();
    let mut k: usize = 0;
    while k < ids.len()
        invariant
            forall|t: int| 0 <= t < ids@.len() ==> #[trigger] ids@[t] < points@.len(),
            pivot < points@.len(),
            sorted_by(points@, Axis::Y, ids@),
            k <= ids@.len(),
            sorted_by(points@, Axis::Y, left@),
            sorted_by(points@, Axis::Y, right@),
            forall|t: int, q: int|
                0 <= t < left@.len() && k <= q < ids@.len() ==> #[trigger] precedes(
                    points@,
                    Axis::Y,
                    left@[t],
                    ids@[q],
                ),
            forall|t: int, q: int|
                0 <= t < right@.len() && k <= q < ids@.len() ==> #[trigger] precedes(
                    points@,
                    Axis::Y,
                    right@[t],
                    ids@[q],
                ),
            forall|x: usize|
                #[trigger] left@.contains(x) <==> (ids@.subrange(0, k as int).contains(x) && precedes(
                    points@,
                    Axis::X,
                    x,
                    pivot,
                )),
            forall|x: usize|
                #[trigger] right@.contains(x) <==> (ids@.subrange(0, k as int).contains(x) && !precedes(
                    points@,
                    Axis::X,
                    x,
                    pivot,
                )),
            forall|t: int| 0 <= t < left@.len() ==> #[trigger] left@[t] < points@.len(),
            forall|t: int| 0 <= t < right@.len() ==> #[trigger] right@[t] < points@.len(),
        decreases ids@.len() - k,
    {
        let x = ids[k];
        let ghost old_left = left@;
        let ghost old_right = right@;
        proof {
            assert(ids@.subrange(0, k + 1) == ids@.subrange(0, k as int).push(x));
            assert forall|y: usize| #[trigger] ids@.subrange(0, k + 1).contains(y) <==> (ids@.subrange(
                0,
                k as int,
            ).contains(y) || y == x) by {
                let s = ids@.subrange(0, k as int);
                if s.contains(y) {
                    let w = choose|w: int| 0 <= w < s.len() && s[w] == y;
                    assert(s.push(x)[w] == y);
                }
                if y == x {
                    assert(s.push(x)[k as int] == y);
                }
                if s.push(x).contains(y) && y != x {
                    let w = choose|w: int| 0 <= w < s.push(x).len() && s.push(x)[w] == y;
                    assert(s[w] == y);
                }
            }
        }
        if comes_before(points, Axis::X, x, pivot) {
            left.push(x);
            proof {
                assert forall|y: usize| #[trigger] left@.contains(y) <==> (old_left.contains(y) || y == x) by {
                    if old_left.contains(y) {
                        let w = choose|w: int| 0 <= w < old_left.len() && old_left[w] == y;
                        assert(left@[w] == y);
                    }
                    if y == x {
                        assert(left@[old_left.len() as int] == y);
                    }
                    if left@.contains(y) && y != x {
                        let w = choose|w: int| 0 <= w < left@.len() && left@[w] == y;
                        assert(old_left[w] == y);
                    }
                }
                assert forall|p: int, q: int| 0 <= p < q < left@.len() implies #[trigger] precedes(
                    points@,
                    Axis::Y,
                    left@[p],
                    left@[q],
                ) by {
                    if q == old_left.len() {
                        assert(precedes(points@, Axis::Y, old_left[p], ids@[k as int]));
                    } else {
                        assert(precedes(points@, Axis::Y, old_left[p], old_left[q]));
                    }
                }
                assert forall|t: int, q: int|
                    0 <= t < left@.len() && k + 1 <= q < ids@.len() implies #[trigger] precedes(
                        points@,
                        Axis::Y,
                        left@[t],
                        ids@[q],
                    ) by {
                    if t == old_left.len() {
                        assert(precedes(points@, Axis::Y, ids@[k as int], ids@[q]));
                    } else {
                        assert(precedes(points@, Axis::Y, old_left[t], ids@[q]));
                    }
                }
            }
        } else {
            right.push(x);
            proof {
                assert forall|y: usize| #[trigger] right@.contains(y) <==> (old_right.contains(y) || y == x) by {
                    if old_right.contains(y) {
                        let w = choose|w: int| 0 <= w < old_right.len() && old_right[w] == y;
                        assert(right@[w] == y);
                    }
                    if y == x {
                        assert(right@[old_right.len() as int] == y);
                    }
                    if right@.contains(y) && y != x {
                        let w = choose|w: int| 0 <= w < right@.len() && right@[w] == y;
                        assert(old_right[w] == y);
                    }
                }
                assert forall|p: int, q: int| 0 <= p < q < right@.len() implies #[trigger] precedes(
                    points@,
                    Axis::Y,
                    right@[p],
                    right@[q],
                ) by {
                    if q == old_right.len() {
                        assert(precedes(points@, Axis::Y, old_right[p], ids@[k as int]));
                    } else {
                        assert(precedes(points@, Axis::Y, old_right[p], old_right[q]));
                    }
                }
                assert forall|t: int, q: int|
                    0 <= t < right@.len() && k + 1 <= q < ids@.len() implies #[trigger] precedes(
                        points@,
                        Axis::Y,
                        right@[t],
                        ids@[q],
                    ) by {
                    if t == old_right.len() {
                        assert(precedes(points@, Axis::Y, ids@[k as int], ids@[q]));
                    } else {
                        assert(precedes(points@, Axis::Y, old_right[t], ids@[q]));
                    }
                }
            }
        }
        k = k + 1;
    }
    proof {
        assert(ids@.subrange(0, ids@.len() as int) == ids@);
    }
    (left, right)
}

/// The closest pair of the points whose indices are `sorted_x`; `sorted_y`
/// holds the same indices sorted by `y`.
pub fn closest_pair_recursive(points: &[Point], sorted_x: &[usize], sorted_y: &[usize]) -> (r: ClosestPair)
    requires
        valid_ids(points@, sorted_x@),
        sorted_by(points@, Axis::X, sorted_x@),
        sorted_by(points@, Axis::Y, sorted_y@),
        forall|x: usize| sorted_x@.contains(x) <==> #[trigger] sorted_y@.contains(x),
        sorted_x@.len() >= 2,
    ensures
        closest_among(points@, sorted_x@, r),
    decreases sorted_x@.len(),
{
    let n = sorted_x.len();
    if n <= 3 {
        return closest_of_few(points, sorted_x);
    }
    let mid = n / 2;
    let pivot = sorted_x[mid];
    let mid_x = points[pivot].x;
    let left = copy_range(sorted_x, 0, mid);
    let right = copy_range(sorted_x, mid, n);
    proof {
        lemma_halves(points@, sorted_x@, mid as int);
        lemma_halves_contain(sorted_x@, mid as int);
        assert forall|k: int| 0 <= k < sorted_y@.len() implies #[trigger] sorted_y@[k] < points@.len() by {
            assert(sorted_y@.contains(sorted_y@[k]));
            assert(sorted_x@.contains(sorted_y@[k]));
        }
    }
    let (left_y, right_y) = split_at_pivot(points, sorted_y, pivot);
    proof {
        assert forall|x: usize| left@.contains(x) <==> #[trigger] left_y@.contains(x) by {
            if left@.contains(x) {
                let p = choose|p: int| 0 <= p < left@.len() && left@[p] == x;
                assert(sorted_x@[p] == x);
                assert(precedes(points@, Axis::X, sorted_x@[p], sorted_x@[mid as int]));
                assert(sorted_x@.contains(x));
            }
            if left_y@.contains(x) {
                assert(sorted_x@.contains(x));
                let p = choose|p: int| 0 <= p < sorted_x@.len() && sorted_x@[p] == x;
                if p > mid {
                    assert(precedes(points@, Axis::X, sorted_x@[mid as int], sorted_x@[p]));
                }
                assert(p < mid);
                assert(left@[p] == x);
            }
        }
        assert forall|x: usize| right@.contains(x) <==> #[trigger] right_y@.contains(x) by {
            if right@.contains(x) {
                let p = choose|p: int| 0 <= p < right@.len() && right@[p] == x;
                assert(sorted_x@[p + mid] == x);
                if p > 0 {
                    assert(precedes(points@, Axis::X, sorted_x@[mid as int], sorted_x@[p + mid]));
                }
                assert(sorted_x@.contains(x));
            }
            if right_y@.contains(x) {
                assert(sorted_x@.contains(x));
                let p = choose|p: int| 0 <= p < sorted_x@.len() && sorted_x@[p] == x;
                if p < mid {
                    assert(precedes(points@, Axis::X, sorted_x@[p], sorted_x@[mid as int]));
                }
                assert(right@[p - mid] == x);
            }
        }
    }
    let dl = closest_pair_recursive(points, left.as_slice(), left_y.as_slice());
    let dr = closest_pair_recursive(points, right.as_slice(), right_y.as_slice());
    let d = if dr.squared_distance < dl.squared_distance { dr } else { dl };
    let strip = collect_strip(points, sorted_y, mid_x, d.squared_distance);
    proof {
        assert(sorted_by(points@, Axis::Y, sorted_y@));
        lemma_sorted_no_duplicates(points@, Axis::Y, strip@);
    }
    let r = strip_closest(points, strip.as_slice(), d);
    proof {
        lemma_combine(
            points@,
            sorted_x@,
            mid as int,
            d.squared_distance as int,
            strip@,
            r.squared_distance as int,
        );
        assert(sorted_x@.contains(r.point_a)) by {
            if r != d {
                let p = choose|p: int| 0 <= p < strip@.len() && strip@[p] == r.point_a;
                assert(sorted_y@.contains(strip@[p]));
            }
        }
        assert(sorted_x@.contains(r.point_b)) by {
            if r != d {
                let p = choose|p: int| 0 <= p < strip@.len() && strip@[p] == r.point_b;
                assert(sorted_y@.contains(strip@[p]));
            }
        }
    }
    r
}

impl ClosestPairAlgorithm for DivideAndConquerPresortedY {
    fn drawings(&self, points: &[Point]) -> (r: Vec<Vec<Drawing>>) {
        Vec::new()
    }

    fn name(&self) -> &'static str {
        "divide and conquer presorted y"
    }

    fn limit(&self) -> (r: usize)
        ensures
            r == usize::MAX,
    {
        usize::MAX
    }

    fn execute(&self, points: &[Point]) -> (r: Result<ClosestPair, PairError>) {
        let n = points.len();
        if n < 2 {
            return Err(PairError::InvalidInput);
        }
        let ids = index_vec(n);
        proof {
            assert(ids@.no_duplicates());
        }
        let sorted_x = sort_indices(points, ids.as_slice(), Axis::X);
        let sorted_y = sort_indices(points, ids.as_slice(), Axis::Y);
        proof {
            lemma_same_elements(ids@, sorted_x@);
            lemma_same_elements(ids@, sorted_y@);
        }
        let r = closest_pair_recursive(points, sorted_x.as_slice(), sorted_y.as_slice());
        proof {
            assert forall|i: usize, j: usize| ids@.contains(i) && ids@.contains(j) && i != j implies r.squared_distance
                <= #[trigger] sq_dist_at(points@, i as int, j as int) by {
                assert(sorted_x@.contains(i) && sorted_x@.contains(j));
            }
            assert(ids@.contains(r.point_a)) by { assert(sorted_x@.contains(r.point_a)); }
            assert(ids@.contains(r.point_b)) by { assert(sorted_x@.contains(r.point_b)); }
            lemma_closest_among_all(points@, r);
        }
        Ok(r)
    }
}

} // verus!

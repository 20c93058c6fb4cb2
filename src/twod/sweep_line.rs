//! The sweep line: points are met in order of `x`, and an active set
//! ordered by `y` holds those whose gap in `x` to the sweep is below the
//! best distance.
use vstd::prelude::*;
use std::collections::BTreeSet;

use super::ordering::{lemma_same_elements, precedes, sort_indices, sorted_by, valid_ids, Axis};
use super::{
    sq_dist, index_vec, is_pair_of, lemma_gap_below_sq_dist, lemma_square_monotone,
    lemma_sq_dist_symmetric, sq_dist_at, squared_gap, ClosestPair, ClosestPairAlgorithm, vertical, Color, Drawing, PairError, Point,
};

verus! {

broadcast use vstd::std_specs::btree::group_btree_axioms, vstd::laws_cmp::group_laws_cmp;

/// Sweep line over the points sorted by `x`.
pub struct SweepLine;

/// The gap in `x` between the points of indices `a` and `b`, squared.
pub open spec fn x_gap_sq(pts: Seq<Point>, a: usize, b: usize) -> int {
    (pts[b as int].x - pts[a as int].x) * (pts[b as int].x - pts[a as int].x)
}

/// `v` moved by `d`, kept within the range of `i32`.
fn clamped(v: i32, d: i128) -> (r: i32)
    requires
        -0x1_0000_0000_0000_0000 <= d <= 0x1_0000_0000_0000_0000,
    ensures
        v + d < i32::MIN ==> r == i32::MIN,
        v + d > i32::MAX ==> r == i32::MAX,
        i32::MIN <= v + d <= i32::MAX ==> r == v + d,
{
    let t: i128 = v as i128 + d;
    if t < i32::MIN as i128 {
        i32::MIN
    } else if t > i32::MAX as i128 {
        i32::MAX
    } else {
        t as i32
    }
}

/// What a frame of the sweep shows: a best pair of two distinct points in
/// red first, then four green lines, then every point in white, in order.
pub open spec fn sweep_frame_shows(pts: Seq<Point>, frame: Seq<Drawing>) -> bool {
    &&& frame.len() == pts.len() + 5
    &&& exists|a: int, b: int|
        0 <= a < pts.len() && 0 <= b < pts.len() && a != b && frame[0] == Drawing::Line(
            pts[a],
            pts[b],
            Color::Red,
        )
    &&& forall|k: int| 0 <= k < pts.len() ==> #[trigger] frame[5 + k] == Drawing::Point(pts[k], Color::White)
}

/// The frame shown before point `p` is compared with the active set: the
/// best pair in red; the sweep line at `p`, the line at the oldest active
/// point `trailing` and the window of half height the best distance
/// (rounded up) between them in green; then every point in white.
pub fn sweep_frame(points: &[Point], best: ClosestPair, p: usize, trailing: usize) -> (r: Vec<Drawing>)
    requires
        is_pair_of(points@, best),
        p < points@.len(),
        trailing < points@.len(),
    ensures
        sweep_frame_shows(points@, r@),
        r@[0] == Drawing::Line(points@[best.point_a as int], points@[best.point_b as int], Color::Red),
{
    let pp = points[p];
    let tx = points[trailing].x;
    proof {
        lemma_gap_below_sq_dist(points@[best.point_a as int], points@[best.point_b as int]);
        super::lemma_square_bound(points@[best.point_a as int].x - points@[best.point_b as int].x);
        super::lemma_square_bound(points@[best.point_a as int].y - points@[best.point_b as int].y);
    }
    let half: u64 = if best.squared_distance == 0 { 0 } else { super::grid::ceil_sqrt(best.squared_distance) };
    let low = clamped(pp.y, -(half as i128));
    let high = clamped(pp.y, half as i128);
    let mut frame: Vec<Drawing> = Vec::new();
    frame.push(Drawing::Line(points[best.point_a], points[best.point_b], Color::Red));
    frame.push(vertical(pp.x, Color::Green));
    frame.push(vertical(tx, Color::Green));
    frame.push(Drawing::Line(Point { x: pp.x, y: low }, Point { x: tx, y: low }, Color::Green));
    frame.push(Drawing::Line(Point { x: pp.x, y: high }, Point { x: tx, y: high }, Color::Green));
    let mut k: usize = 0;
    while k < points.len()
        invariant
            k <= points@.len(),
            frame@.len() == k + 5,
            frame@[0] == Drawing::Line(points@[best.point_a as int], points@[best.point_b as int], Color::Red),
            forall|q: int| 0 <= q < k ==> #[trigger] frame@[5 + q] == Drawing::Point(points@[q], Color::White),
        decreases points@.len() - k,
    {
        frame.push(Drawing::Point(points[k], Color::White));
        k = k + 1;
    }
    frame
}

/// No two of the first `i` indices of `sx` name points closer than `d`.
pub open spec fn bound_upto(pts: Seq<Point>, sx: Seq<usize>, i: int, d: int) -> bool {
    forall|t1: int, t2: int|
        0 <= t1 < i && 0 <= t2 < i && t1 != t2 ==> d <= #[trigger] sq_dist_at(
            pts,
            sx[t1] as int,
            sx[t2] as int,
        )
}

/// The place of point `j` in the active set, which is ordered by `y`, then
/// by `x`, then by index.
pub open spec fn active_key(pts: Seq<Point>, j: usize) -> (i32, i32, usize) {
    (pts[j as int].y, pts[j as int].x, j)
}

/// `a` comes before `b`, or is `b`, in the lexicographic order of tuples.
pub open spec fn lex_le(a: (i32, i32, usize), b: (i32, i32, usize)) -> bool {
    a.0 < b.0 || (a.0 == b.0 && (a.1 < b.1 || (a.1 == b.1 && a.2 <= b.2)))
}

/// The key of point `j` in the active set.
pub fn key_of(points: &[Point], j: usize) -> (r: (i32, i32, usize))
    requires
        j < points@.len(),
    ensures
        r == active_key(points@, j),
{
    (points[j].y, points[j].x, j)
}

/// Relies on `BTreeSet::range` over an inclusive range: it yields exactly
/// the elements `e` of the set with `lo <= e <= hi`, tuples being ordered
/// lexicographically; it panics only when `lo > hi`.
#[verifier::external_body]
fn keys_between(set: &BTreeSet<(i32, i32, usize)>, lo: (i32, i32, usize), hi: (i32, i32, usize)) -> (r: Vec<
    (i32, i32, usize),
>)
    requires
        lex_le(lo, hi),
    ensures
        forall|e: (i32, i32, usize)| #[trigger] r@.contains(e) <==> (set@.contains(e) && lex_le(lo, e) && lex_le(e, hi)),
{
    set.range(lo..=hi).copied().collect()
}

/// A squared distance between two points fits the bound of `ceil_sqrt`.
pub proof fn lemma_sq_dist_fits(a: Point, b: Point)
    ensures
        0 <= sq_dist(a, b) <= 2 * 0xffff_ffff_ffff_ffff,
{
    lemma_gap_below_sq_dist(a, b);
    super::lemma_square_bound(a.x - b.x);
    super::lemma_square_bound(a.y - b.y);
}

/// The closest pair of the points whose indices are `sorted_x`, and, when
/// `draw` holds, one frame for each point from the third on.
pub fn sweep(points: &[Point], sorted_x: &Vec<usize>, draw: bool) -> (r: (ClosestPair, Vec<Vec<Drawing>>))
    requires
        valid_ids(points@, sorted_x@),
        sorted_by(points@, Axis::X, sorted_x@),
        sorted_x@.len() >= 2,
    ensures
        is_pair_of(points@, r.0),
        bound_upto(points@, sorted_x@, sorted_x@.len() as int, r.0.squared_distance as int),
        r.1@.len() == if draw { sorted_x@.len() - 2 } else { 0 },
        forall|f: int| 0 <= f < r.1@.len() ==> sweep_frame_shows(points@, (#[trigger] r.1@[f])@),
{
    let mut frames: Vec<Vec<Drawing>> = Vec::new();
    let sx = sorted_x;
    let n = sx.len();
    proof {
        assert(precedes(points@, Axis::X, sx@[0], sx@[1]));
        assert(sx@[0] < points@.len() && sx@[1] < points@.len());
    }
    let mut best = ClosestPair::euclidean(points, sx[0], sx[1]);
    let mut active: BTreeSet<(i32, i32, usize)> = BTreeSet::new();
    active.insert(key_of(points, sx[0]));
    active.insert(key_of(points, sx[1]));
    proof {
        lemma_sq_dist_symmetric(points@[sx@[0] as int], points@[sx@[1] as int]);
        assert forall|e: (i32, i32, usize), q: int|
            #[trigger] active@.contains(e) && 2 <= q < n implies precedes(points@, Axis::X, e.2, #[trigger] sx@[q]) by {
            assert(precedes(points@, Axis::X, sx@[0], sx@[q]));
            assert(precedes(points@, Axis::X, sx@[1], sx@[q]));
        }
    }
    let mut lo: usize = 0;
    let mut i: usize = 2;
    while i < n
        invariant
            valid_ids(points@, sx@),
            sorted_by(points@, Axis::X, sx@),
            n == sx@.len(),
            2 <= i <= n,
            lo <= i,
            is_pair_of(points@, best),
            frames@.len() == if draw { i - 2 } else { 0 },
            forall|f: int| 0 <= f < frames@.len() ==> sweep_frame_shows(points@, (#[trigger] frames@[f])@),
            bound_upto(points@, sx@, i as int, best.squared_distance as int),
            forall|t: int| lo <= t < i ==> active@.contains(active_key(points@, #[trigger] sx@[t])),
            forall|e: (i32, i32, usize)|
                #[trigger] active@.contains(e) ==> e.2 < points@.len() && e == active_key(points@, e.2),
            forall|e: (i32, i32, usize), q: int|
                #[trigger] active@.contains(e) && i <= q < n ==> precedes(points@, Axis::X, e.2, #[trigger] sx@[q]),
            forall|t: int, q: int|
                0 <= t < lo && i <= q < n ==> best.squared_distance <= #[trigger] x_gap_sq(points@, sx@[t], sx@[q]),
        decreases n - i,
    {
        let p = sx[i];
        proof {
            assert(sx@[i as int] < points@.len());
        }
        while lo < i && squared_gap(points[p].x, points[sx[lo]].x) >= best.squared_distance
            invariant
                valid_ids(points@, sx@),
                sorted_by(points@, Axis::X, sx@),
                n == sx@.len(),
                2 <= i < n,
                p == sx@[i as int],
                p < points@.len(),
                lo <= i,
                forall|t: int| lo <= t < i ==> active@.contains(active_key(points@, #[trigger] sx@[t])),
                forall|e: (i32, i32, usize)|
                    #[trigger] active@.contains(e) ==> e.2 < points@.len() && e == active_key(points@, e.2),
                forall|e: (i32, i32, usize), q: int|
                    #[trigger] active@.contains(e) && i <= q < n ==> precedes(points@, Axis::X, e.2, #[trigger] sx@[q]),
                forall|t: int, q: int|
                    0 <= t < lo && i <= q < n ==> best.squared_distance <= #[trigger] x_gap_sq(points@, sx@[t], sx@[q]),
            decreases i - lo,
        {
            proof {
                assert(sx@[lo as int] < points@.len());
            }
            let gone = key_of(points, sx[lo]);
            let ghost before = active@;
            active.remove(&gone);
            proof {
                assert(active@ == before.remove(gone));
                assert forall|t: int| lo + 1 <= t < i implies active@.contains(active_key(points@, #[trigger] sx@[t])) by {
                    assert(before.contains(active_key(points@, sx@[t])));
                    assert(sx@[t] != sx@[lo as int]);
                }
                assert forall|t: int, q: int|
                    0 <= t < lo + 1 && i <= q < n implies best.squared_distance <= #[trigger] x_gap_sq(
                        points@,
                        sx@[t],
                        sx@[q],
                    ) by {
                    if t == lo {
                        let xl = points@[sx@[t] as int].x;
                        let xp = points@[p as int].x;
                        let xq = points@[sx@[q] as int].x;
                        assert(precedes(points@, Axis::X, sx@[t], sx@[i as int]));
                        if q > i {
                            assert(precedes(points@, Axis::X, sx@[i as int], sx@[q]));
                        }
                        lemma_square_monotone(xp - xl, xq - xl);
                    }
                }
            }
            lo = lo + 1;
        }
        if draw {
            frames.push(sweep_frame(points, best, p, sx[lo]));
        }
        let window = best.squared_distance;
        proof {
            lemma_sq_dist_fits(points@[best.point_a as int], points@[best.point_b as int]);
        }
        let half: u64 = if window == 0 { 0 } else { super::grid::ceil_sqrt(window) };
        let low = clamped(points[p].y, -(half as i128));
        let high = clamped(points[p].y, half as i128);
        let cands = keys_between(&active, (low, i32::MIN, 0), (high, i32::MAX, usize::MAX));
        let mut k: usize = 0;
        while k < cands.len()
            invariant
                valid_ids(points@, sx@),
                n == sx@.len(),
                2 <= i < n,
                p == sx@[i as int],
                p < points@.len(),
                forall|e: (i32, i32, usize)|
                    #[trigger] active@.contains(e) ==> e.2 < points@.len() && e == active_key(points@, e.2),
                forall|e: (i32, i32, usize), q: int|
                    #[trigger] active@.contains(e) && i <= q < n ==> precedes(points@, Axis::X, e.2, #[trigger] sx@[q]),
                forall|e: (i32, i32, usize)|
                    #[trigger] cands@.contains(e) ==> active@.contains(e),
                k <= cands@.len(),
                forall|m: int| 0 <= m < k ==> best.squared_distance <= #[trigger] sq_dist_at(
                    points@,
                    p as int,
                    cands@[m].2 as int,
                ),
                best.squared_distance <= window,
                is_pair_of(points@, best),
            decreases cands@.len() - k,
        {
            let a = cands[k].2;
            proof {
                assert(cands@.contains(cands@[k as int]));
                assert(active@.contains(cands@[k as int]));
                assert(precedes(points@, Axis::X, a, sx@[i as int]));
            }
            let current = ClosestPair::euclidean(points, p, a);
            if current.squared_distance < best.squared_distance {
                best = current;
            }
            k = k + 1;
        }
        proof {
            assert forall|t: int| 0 <= t < i implies best.squared_distance <= #[trigger] sq_dist_at(
                points@,
                sx@[t] as int,
                p as int,
            ) by {
                let pt = points@[sx@[t] as int];
                let pp = points@[p as int];
                lemma_sq_dist_symmetric(pt, pp);
                lemma_gap_below_sq_dist(pp, pt);
                if t < lo {
                    assert(best.squared_distance <= x_gap_sq(points@, sx@[t], sx@[i as int]));
                } else if sq_dist(pp, pt) < window {
                    let key = active_key(points@, sx@[t]);
                    assert(active@.contains(key));
                    let dy = pp.y - pt.y;
                    if dy >= half as int {
                        lemma_square_monotone(half as int, dy);
                    }
                    if -dy >= half as int {
                        lemma_square_monotone(half as int, -dy);
                        assert(dy * dy == (-dy) * (-dy)) by (nonlinear_arith);
                    }
                    assert(lex_le((low, i32::MIN, 0usize), key));
                    assert(lex_le(key, (high, i32::MAX, usize::MAX)));
                    assert(cands@.contains(key));
                    let m = choose|m: int| 0 <= m < cands@.len() && cands@[m] == key;
                    assert(best.squared_distance <= sq_dist_at(points@, p as int, cands@[m].2 as int));
                }
            }
            assert forall|t1: int, t2: int|
                0 <= t1 < i + 1 && 0 <= t2 < i + 1 && t1 != t2 implies best.squared_distance
                    <= #[trigger] sq_dist_at(points@, sx@[t1] as int, sx@[t2] as int) by {
                if t1 == i {
                    lemma_sq_dist_symmetric(points@[sx@[t2] as int], points@[p as int]);
                    assert(best.squared_distance <= sq_dist_at(points@, sx@[t2] as int, p as int));
                } else if t2 == i {
                    assert(best.squared_distance <= sq_dist_at(points@, sx@[t1] as int, p as int));
                }
            }
        }
        let ghost before = active@;
        active.insert(key_of(points, p));
        proof {
            assert forall|t: int| lo <= t < i + 1 implies active@.contains(active_key(points@, #[trigger] sx@[t])) by {
                if t < i {
                    assert(before.contains(active_key(points@, sx@[t])));
                }
            }
            assert forall|e: (i32, i32, usize), q: int|
                #[trigger] active@.contains(e) && i + 1 <= q < n implies precedes(points@, Axis::X, e.2, #[trigger] sx@[q]) by {
                if e == active_key(points@, p) {
                    assert(precedes(points@, Axis::X, sx@[i as int], sx@[q]));
                } else {
                    assert(before.contains(e));
                }
            }
        }
        i = i + 1;
    }
    (best, frames)
}

impl ClosestPairAlgorithm for SweepLine {
    /// One frame for each point from the third on, in order of `x`.
    fn drawings(&self, points: &[Point]) -> (r: Vec<Vec<Drawing>>)
        ensures
            points@.len() >= 2 ==> r@.len() == points@.len() - 2,
            forall|f: int| 0 <= f < r@.len() ==> sweep_frame_shows(points@, (#[trigger] r@[f])@),
    {
        let n = points.len();
        if n < 2 {
            return Vec::new();
        }
        let ids = index_vec(n);
        proof {
            assert(ids@.no_duplicates());
        }
        let sorted_x = sort_indices(points, ids.as_slice(), Axis::X);
        let (_, frames) = sweep(points, &sorted_x, true);
        frames
    }

    fn name(&self) -> &'static str {
        "sweep line"
    }

    fn limit(&self) -> (r: usize)
        ensures
            r == usize::MAX,
    {
        usize::MAX
    }

    fn execute(&self, points: &[Point]) -> (r: Result<ClosestPair, PairError>) {
        let n = points.len();
        if n < 2 {
            return Err(PairError::InvalidInput);
        }
        let ids = index_vec(n);
        proof {
            assert(ids@.no_duplicates());
        }
        let sorted_x = sort_indices(points, ids.as_slice(), Axis::X);
        let (r, _) = sweep(points, &sorted_x, false);
        proof {
            lemma_same_elements(ids@, sorted_x@);
            assert forall|a: int, b: int| 0 <= a < n && 0 <= b < n && a != b implies r.squared_distance
                <= #[trigger] sq_dist_at(points@, a, b) by {
                assert(ids@[a] == a as usize);
                assert(ids@[b] == b as usize);
                assert(sorted_x@.contains(a as usize));
                assert(sorted_x@.contains(b as usize));
                let t1 = choose|t1: int| 0 <= t1 < n && sorted_x@[t1] == a as usize;
                let t2 = choose|t2: int| 0 <= t2 < n && sorted_x@[t2] == b as usize;
                assert(r.squared_distance <= sq_dist_at(points@, sorted_x@[t1] as int, sorted_x@[t2] as int));
            }
        }
        Ok(r)
    }
}

} // verus!

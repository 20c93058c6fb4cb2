//! Closest pair over plain coordinate pairs, reported by index.
use vstd::prelude::*;

use crate::twod::{self, ClosestPairAlgorithm, DivideAndConquer};

verus! {

/// A pair of values: two coordinates, or two indices.
#[derive(Clone, Copy, Debug, PartialEq, Eq)]
pub struct Vec2<T> {
    pub x: T,
    pub y: T,
}

/// The indices of two points and their squared distance.
#[derive(Clone, Copy, Debug, PartialEq, Eq)]
pub struct ClosestPair {
    pub pair: Vec2<usize>,
    pub squared_distance: u128,
}

impl ClosestPair {
    fn new(x: usize, y: usize, squared_distance: u128) -> (r: ClosestPair)
        ensures
            r.pair.x == x,
            r.pair.y == y,
            r.squared_distance == squared_distance,
    {
        ClosestPair { pair: Vec2 { x, y }, squared_distance }
    }
}

/// The plane point with the same coordinates.
pub open spec fn as_point(v: Vec2<i32>) -> twod::Point {
    twod::Point { x: v.x, y: v.y }
}

/// The plane points with the same coordinates, in the same order.
pub open spec fn as_points(s: Seq<Vec2<i32>>) -> Seq<twod::Point> {
    s.map_values(|v: Vec2<i32>| as_point(v))
}

/// `r` names two distinct points of `pts` and no two points are closer.
pub open spec fn is_closest(pts: Seq<Vec2<i32>>, r: ClosestPair) -> bool {
    &&& r.pair.x < pts.len()
    &&& r.pair.y < pts.len()
    &&& r.pair.x != r.pair.y
    &&& r.squared_distance == twod::sq_dist(as_point(pts[r.pair.x as int]), as_point(pts[r.pair.y as int]))
    &&& forall|i: int, j: int|
        0 <= i < pts.len() && 0 <= j < pts.len() && i != j ==> r.squared_distance <= #[trigger] twod::sq_dist(
            as_point(pts[i]),
            as_point(pts[j]),
        )
}

/// The squared Euclidean distance of two points.
pub fn distance(a: &Vec2<i32>, b: &Vec2<i32>) -> (d: u128)
    ensures
        d == twod::sq_dist(as_point(*a), as_point(*b)),
{
    twod::squared_distance(&twod::Point { x: a.x, y: a.y }, &twod::Point { x: b.x, y: b.y })
}

/// The first closest pair in the order `(0, 1), (0, 2), ..., (1, 2), ...`,
/// or `None` when there are fewer than two points.
pub fn closest_pair_index(points: &[Vec2<i32>]) -> (r: Option<ClosestPair>)
    ensures
        r is None <==> points@.len() < 2,
        r matches Some(c) ==> is_closest(points@, c) && c.pair.x < c.pair.y && forall|i: int, j: int|
            0 <= i < j < points@.len() && (i < c.pair.x || (i == c.pair.x && j < c.pair.y))
                ==> c.squared_distance < #[trigger] twod::sq_dist(as_point(points@[i]), as_point(points@[j])),
{
    let n = points.len();
    if n < 2 {
        return None;
    }
    let mut best = ClosestPair::new(0, 1, distance(&points[0], &points[1]));
    for x in 0..n
        invariant
            n == points@.len(),
            n >= 2,
            best.pair.x < best.pair.y < n,
            best.squared_distance == twod::sq_dist(as_point(points@[best.pair.x as int]), as_point(points@[best.pair.y as int])),
            best.pair.x < x || (best.pair.x == 0 && best.pair.y == 1),
            forall|i: int, j: int|
                0 <= i < x && i < j < n ==> best.squared_distance <= #[trigger] twod::sq_dist(
                    as_point(points@[i]),
                    as_point(points@[j]),
                ),
            forall|i: int, j: int|
                0 <= i < j < n && i < x && (i < best.pair.x || (i == best.pair.x && j < best.pair.y))
                    ==> best.squared_distance < #[trigger] twod::sq_dist(as_point(points@[i]), as_point(points@[j])),
    {
        for y in (x + 1)..n
            invariant
                n == points@.len(),
                n >= 2,
                x < n,
                best.pair.x < best.pair.y < n,
                best.squared_distance == twod::sq_dist(as_point(points@[best.pair.x as int]), as_point(points@[best.pair.y as int])),
                best.pair.x < x || (best.pair.x == x && best.pair.y < y) || (best.pair.x == 0 && best.pair.y == 1),
                forall|i: int, j: int|
                    0 <= i < j < n && (i < x || (i == x && j < y)) ==> best.squared_distance
                        <= #[trigger] twod::sq_dist(as_point(points@[i]), as_point(points@[j])),
                forall|i: int, j: int|
                    0 <= i < j < n && (i < x || (i == x && j < y)) && (i < best.pair.x || (i == best.pair.x
                        && j < best.pair.y)) ==> best.squared_distance < #[trigger] twod::sq_dist(
                        as_point(points@[i]),
                        as_point(points@[j]),
                    ),
        {
            let current = distance(&points[x], &points[y]);
            if current < best.squared_distance {
                best = ClosestPair::new(x, y, current);
            }
        }
    }
    proof {
        assert forall|i: int, j: int| 0 <= i < n && 0 <= j < n && i != j implies best.squared_distance
            <= #[trigger] twod::sq_dist(as_point(points@[i]), as_point(points@[j])) by {
            if i > j {
                twod::lemma_sq_dist_symmetric(as_point(points@[i]), as_point(points@[j]));
                assert(best.squared_distance <= twod::sq_dist(as_point(points@[j]), as_point(points@[i])));
            }
        }
    }
    Some(best)
}

/// A closest pair found by divide and conquer, or `None` when there are
/// fewer than two points.
pub fn divide_and_conquer(points: &[Vec2<i32>]) -> (r: Option<ClosestPair>)
    ensures
        r is None <==> points@.len() < 2,
        r matches Some(c) ==> is_closest(points@, c),
{
    let mut plane: Vec<twod::Point> = Vec::new();
    for k in 0..points.len()
        invariant
            plane@ == as_points(points@).take(k as int),
    {
        plane.push(twod::Point { x: points[k].x, y: points[k].y });
        proof {
            assert(plane@ =~= as_points(points@).take(k + 1));
        }
    }
    proof {
        assert(plane@ =~= as_points(points@));
        assert(plane@.len() == points@.len());
    }
    let slice = plane.as_slice();
    let found = DivideAndConquer.execute(slice);
    proof {
        assert(slice@ == plane@);
        if let Err(e) = found {
            assert(e == twod::PairError::InvalidInput);
        }
    }
    match found {
        Ok(p) => {
            proof {
                assert forall|i: int, j: int| 0 <= i < points@.len() && 0 <= j < points@.len() && i != j
                    implies p.squared_distance <= #[trigger] twod::sq_dist(as_point(points@[i]), as_point(points@[j])) by {
                    assert(p.squared_distance <= twod::sq_dist_at(plane@, i, j));
                }
            }
            Some(ClosestPair::new(p.point_a, p.point_b, p.squared_distance))
        },
        Err(_) => None,
    }
}

} // verus!

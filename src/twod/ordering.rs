//! Orders on point indices and a merge sort of index sequences.
use vstd::prelude::*;

use super::Point;

verus! {

broadcast use vstd::seq_lib::group_to_multiset_ensures;

/// The axis along which indices are ordered; the other coordinate and then
/// the index itself break ties, so that distinct indices are never equal.
#[derive(Clone, Copy, Debug, PartialEq, Eq, Structural)]
pub enum Axis {
    X,
    Y,
}

/// Index `i` strictly precedes index `j` in the order along `axis`.
pub open spec fn precedes(pts: Seq<Point>, axis: Axis, i: usize, j: usize) -> bool {
    let a = pts[i as int];
    let b = pts[j as int];
    match axis {
        Axis::X => a.x < b.x || (a.x == b.x && (a.y < b.y || (a.y == b.y && i < j))),
        Axis::Y => a.y < b.y || (a.y == b.y && (a.x < b.x || (a.x == b.x && i < j))),
    }
}

/// The indices are those of points of `pts`, each at most once.
pub open spec fn valid_ids(pts: Seq<Point>, ids: Seq<usize>) -> bool {
    &&& ids.no_duplicates()
    &&& forall|k: int| 0 <= k < ids.len() ==> #[trigger] ids[k] < pts.len()
}

/// The indices come in strictly increasing order along `axis`.
pub open spec fn sorted_by(pts: Seq<Point>, axis: Axis, ids: Seq<usize>) -> bool {
    forall|p: int, q: int| 0 <= p < q < ids.len() ==> #[trigger] precedes(pts, axis, ids[p], ids[q])
}

/// Facts that two sequences with the same elements share.
pub proof fn lemma_same_elements(a: Seq<usize>, b: Seq<usize>)
    requires
        a.to_multiset() == b.to_multiset(),
    ensures
        a.len() == b.len(),
        forall|x: usize| a.contains(x) <==> b.contains(x),
        a.no_duplicates() ==> b.no_duplicates(),
{
    vstd::seq_lib::to_multiset_len(a);
    vstd::seq_lib::to_multiset_len(b);
    assert forall|x: usize| a.contains(x) <==> b.contains(x) by {
        vstd::seq_lib::to_multiset_contains(a, x);
        vstd::seq_lib::to_multiset_contains(b, x);
    }
    if a.no_duplicates() {
        a.lemma_multiset_has_no_duplicates();
        b.lemma_multiset_has_no_duplicates_conv();
    }
}

/// Strictly sorted indices are distinct.
pub proof fn lemma_sorted_no_duplicates(pts: Seq<Point>, axis: Axis, ids: Seq<usize>)
    requires
        sorted_by(pts, axis, ids),
    ensures
        ids.no_duplicates(),
{
    assert forall|p: int, q: int| 0 <= p < ids.len() && 0 <= q < ids.len() && p != q
        implies ids[p] != ids[q] by {
        if p < q {
            assert(precedes(pts, axis, ids[p], ids[q]));
        } else {
            assert(precedes(pts, axis, ids[q], ids[p]));
        }
    }
}

/// Whether index `i` comes before index `j` along `axis`.
pub fn comes_before(points: &[Point], axis: Axis, i: usize, j: usize) -> (r: bool)
    requires
        i < points@.len(),
        j < points@.len(),
    ensures
        r == precedes(points@, axis, i, j),
{
    let a = points[i];
    let b = points[j];
    match axis {
        Axis::X => a.x < b.x || (a.x == b.x && (a.y < b.y || (a.y == b.y && i < j))),
        Axis::Y => a.y < b.y || (a.y == b.y && (a.x < b.x || (a.x == b.x && i < j))),
    }
}

/// The indices `ids[lo..hi]` as a vector of their own.
pub fn copy_range(ids: &[usize], lo: usize, hi: usize) -> (r: Vec<usize>)
    requires
        lo <= hi <= ids@.len(),
    ensures
        r@ == ids@.subrange(lo as int, hi as int),
{
    let mut r: Vec<usize> = Vec::new();
    let mut k: usize = lo;
    while k < hi
        invariant
            lo <= k <= hi <= ids@.len(),
            r@ == ids@.subrange(lo as int, k as int),
        decreases hi - k,
    {
        r.push(ids[k]);
        k = k + 1;
    }
    r
}

/// Merges two sorted sequences with no index in common.
fn merge(points: &[Point], axis: Axis, a: &Vec<usize>, b: &Vec<usize>) -> (r: Vec<usize>)
    requires
        forall|k: int| 0 <= k < a@.len() ==> #[trigger] a@[k] < points@.len(),
        forall|k: int| 0 <= k < b@.len() ==> #[trigger] b@[k] < points@.len(),
        sorted_by(points@, axis, a@),
        sorted_by(points@, axis, b@),
        forall|p: int, q: int| 0 <= p < a@.len() && 0 <= q < b@.len() ==> a@[p] != b@[q],
    ensures
        r@.to_multiset() == a@.to_multiset().add(b@.to_multiset()),
        sorted_by(points@, axis, r@),
        forall|k: int| 0 <= k < r@.len() ==> #[trigger] r@[k] < points@.len(),
{
    let mut r: Vec<usize> = Vec::new();
    let mut i: usize = 0;
    let mut j: usize = 0;
    while i < a.len() || j < b.len()
        invariant
            forall|k: int| 0 <= k < a@.len() ==> #[trigger] a@[k] < points@.len(),
            forall|k: int| 0 <= k < b@.len() ==> #[trigger] b@[k] < points@.len(),
            sorted_by(points@, axis, a@),
            sorted_by(points@, axis, b@),
            forall|p: int, q: int| 0 <= p < a@.len() && 0 <= q < b@.len() ==> a@[p] != b@[q],
            i <= a@.len(),
            j <= b@.len(),
            r@.to_multiset() == a@.subrange(0, i as int).to_multiset().add(
                b@.subrange(0, j as int).to_multiset(),
            ),
            r@.len() == i + j,
            sorted_by(points@, axis, r@),
            forall|k: int| 0 <= k < r@.len() ==> #[trigger] r@[k] < points@.len(),
            i < a@.len() ==> forall|k: int| 0 <= k < r@.len() ==> precedes(points@, axis, #[trigger] r@[k], a@[i as int]),
            j < b@.len() ==> forall|k: int| 0 <= k < r@.len() ==> precedes(points@, axis, #[trigger] r@[k], b@[j as int]),
        decreases a@.len() + b@.len() - i - j,
    {
        let take_a = if i < a.len() && j < b.len() {
            comes_before(points, axis, a[i], b[j])
        } else {
            i < a.len()
        };
        let ghost old_r = r@;
        if take_a {
            let x = a[i];
            r.push(x);
            proof {
                assert(a@.subrange(0, i + 1) == a@.subrange(0, i as int).push(x));
                assert(r@ == old_r.push(x));
                if i + 1 < a@.len() {
                    assert(precedes(points@, axis, a@[i as int], a@[i + 1]));
                }
                if j < b@.len() {
                    assert(a@[i as int] != b@[j as int]);
                }
            }
            i = i + 1;
        } else {
            let x = b[j];
            r.push(x);
            proof {
                assert(b@.subrange(0, j + 1) == b@.subrange(0, j as int).push(x));
                assert(r@ == old_r.push(x));
                if j + 1 < b@.len() {
                    assert(precedes(points@, axis, b@[j as int], b@[j + 1]));
                }
                if i < a@.len() {
                    assert(a@[i as int] != b@[j as int]);
                }
            }
            j = j + 1;
        }
    }
    proof {
        assert(a@.subrange(0, a@.len() as int) == a@);
        assert(b@.subrange(0, b@.len() as int) == b@);
    }
    r
}

/// The indices `ids` sorted along `axis`.
pub fn sort_indices(points: &[Point], ids: &[usize], axis: Axis) -> (r: Vec<usize>)
    requires
        forall|k: int| 0 <= k < ids@.len() ==> #[trigger] ids@[k] < points@.len(),
        ids@.no_duplicates(),
    ensures
        r@.to_multiset() == ids@.to_multiset(),
        r@.len() == ids@.len(),
        valid_ids(points@, r@),
        sorted_by(points@, axis, r@),
    decreases ids@.len(),
{
    let n = ids.len();
    if n <= 1 {
        let r = copy_range(ids, 0, n);
        proof {
            assert(ids@.subrange(0, n as int) == ids@);
        }
        return r;
    }
    let mid = n / 2;
    let left = copy_range(ids, 0, mid);
    let right = copy_range(ids, mid, n);
    proof {
        assert(ids@ == left@ + right@);
        vstd::seq_lib::lemma_multiset_commutative(left@, right@);
        assert forall|p: int, q: int| 0 <= p < left@.len() && 0 <= q < right@.len()
            implies left@[p] != right@[q] by {
            assert(ids@[p] == left@[p]);
            assert(ids@[mid + q] == right@[q]);
        }
        assert(left@.no_duplicates()) by {
            assert forall|p: int, q: int| 0 <= p < left@.len() && 0 <= q < left@.len() && p != q
                implies left@[p] != left@[q] by {
                assert(ids@[p] == left@[p]);
                assert(ids@[q] == left@[q]);
            }
        }
        assert(right@.no_duplicates()) by {
            assert forall|p: int, q: int| 0 <= p < right@.len() && 0 <= q < right@.len() && p != q
                implies right@[p] != right@[q] by {
                assert(ids@[mid + p] == right@[p]);
                assert(ids@[mid + q] == right@[q]);
            }
        }
        assert forall|k: int| 0 <= k < left@.len() implies #[trigger] left@[k] < points@.len() by {
            assert(ids@[k] == left@[k]);
        }
        assert forall|k: int| 0 <= k < right@.len() implies #[trigger] right@[k] < points@.len() by {
            assert(ids@[mid + k] == right@[k]);
        }
    }
    let sl = sort_indices(points, left.as_slice(), axis);
    let sr = sort_indices(points, right.as_slice(), axis);
    proof {
        lemma_same_elements(left@, sl@);
        lemma_same_elements(right@, sr@);
        assert forall|p: int, q: int| 0 <= p < sl@.len() && 0 <= q < sr@.len()
            implies sl@[p] != sr@[q] by {
            assert(sl@.contains(sl@[p]));
            assert(sr@.contains(sr@[q]));
            if sl@[p] == sr@[q] {
                let x = sl@[p];
                assert(left@.contains(x));
                assert(right@.contains(x));
                let p2 = choose|p2: int| 0 <= p2 < left@.len() && left@[p2] == x;
                let q2 = choose|q2: int| 0 <= q2 < right@.len() && right@[q2] == x;
                assert(false);
            }
        }
    }
    let r = merge(points, axis, &sl, &sr);
    proof {
        lemma_same_elements(ids@, r@);
    }
    r
}

} // verus!

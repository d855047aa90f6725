//! Exhaustive closest-pair scan: every unordered pair compared once, the
//! first strictly-smallest pair in scan order kept.

use crate::geometry::{
    dist_sq, dist_sq_u64, first_min_pair_in, pair_lt, valid_points, Point,
};
use vstd::prelude::*;

verus! {

/// The exhaustive scan over positions `[lo, hi)`: compares every pair
/// `(i, j)` with `lo <= i < j < hi` in lexicographic order and keeps the
/// first pair with the strictly smallest squared distance. Also the base
/// case of the divide-and-conquer method.
pub(crate) fn closest_in_range(pts: &Vec<Point>, lo: usize, hi: usize) -> (r: (usize, usize))
    requires
        valid_points(pts@),
        lo + 2 <= hi,
        hi <= pts@.len(),
    ensures
        first_min_pair_in(pts@, lo as int, hi as int, r.0 as int, r.1 as int),
{
    let mut bi: usize = lo;
    let mut bj: usize = lo + 1;
    let mut bd: u64 = dist_sq_u64(pts[lo], pts[lo + 1]);
    let mut i: usize = lo;
    while i < hi
        invariant
            valid_points(pts@),
            lo + 2 <= hi <= pts@.len(),
            lo <= i <= hi,
            lo <= bi < bj < hi,
            bd as int == dist_sq(pts@[bi as int], pts@[bj as int]),
            pair_lt(bi as int, bj as int, i as int, i as int + 1) || (bi == i && bj == i + 1),
            forall|a: int, b: int|
                lo <= a < b < hi && pair_lt(a, b, i as int, i as int + 1) ==> bd as int
                    <= #[trigger] dist_sq(pts@[a], pts@[b]),
            forall|a: int, b: int|
                lo <= a < b < hi && pair_lt(a, b, i as int, i as int + 1) && pair_lt(
                    a,
                    b,
                    bi as int,
                    bj as int,
                ) ==> #[trigger] dist_sq(pts@[a], pts@[b]) > bd as int,
        decreases hi - i,
    {
        let mut j: usize = i + 1;
        while j < hi
            invariant
                valid_points(pts@),
                lo + 2 <= hi <= pts@.len(),
                lo <= i < hi,
                i < j <= hi,
                lo <= bi < bj < hi,
                bd as int == dist_sq(pts@[bi as int], pts@[bj as int]),
                pair_lt(bi as int, bj as int, i as int, j as int) || (bi == i && bj == j),
                forall|a: int, b: int|
                    lo <= a < b < hi && pair_lt(a, b, i as int, j as int) ==> bd as int
                        <= #[trigger] dist_sq(pts@[a], pts@[b]),
                forall|a: int, b: int|
                    lo <= a < b < hi && pair_lt(a, b, i as int, j as int) && pair_lt(
                        a,
                        b,
                        bi as int,
                        bj as int,
                    ) ==> #[trigger] dist_sq(pts@[a], pts@[b]) > bd as int,
            decreases hi - j,
        {
            let d = dist_sq_u64(pts[i], pts[j]);
            if d < bd {
                bi = i;
                bj = j;
                bd = d;
            }
            j = j + 1;
        }
        i = i + 1;
    }
    (bi, bj)
}

/// Closest pair of the whole sequence by exhaustive scan, or `None` when
/// fewer than two points exist. The returned pair `(i, j)` has `i < j`, its
/// squared distance is minimal among all pairs, and among equally minimal
/// pairs it is the one met first in lexicographic scan order.
pub fn brute_force_closest_points(points: &Vec<Point>) -> (r: Option<(usize, usize)>)
    requires
        valid_points(points@),
    ensures
        points@.len() < 2 <==> r is None,
        r is Some ==> first_min_pair_in(
            points@,
            0,
            points@.len() as int,
            r->Some_0.0 as int,
            r->Some_0.1 as int,
        ),
{
    let n: usize = points.len();
    if n < 2 {
        return None;
    }
    let (i, j) = closest_in_range(points, 0, n);
    Some((i, j))
}

} // verus!


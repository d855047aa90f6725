//! Divide-and-conquer closest pair: split the x-sorted points at their
//! midpoint, recurse on both halves, then reconcile with cross-boundary
//! candidates found in a strip around the dividing line.

use crate::brute_force::closest_in_range;
use crate::geometry::{
    dist_sq, dist_sq_u64, lemma_dist_sq_sym, lemma_pair_occurrence, min_dist_pair_unordered,
    valid_point, valid_points, Point,
};
use crate::sorting::{ranks_by_y, ranks_sorted_by_y, sorted_by_x, sorted_copy_by_x};
use crate::strip::{lemma_sq_monotone, lemma_strip_window};
use vstd::prelude::*;

verus! {

/// How `divide_and_conquer_closest_points` fails.
#[derive(Clone, Copy, PartialEq, Eq, Structural, Debug)]
pub enum ClosestPairError {
    /// Fewer than two points were supplied; the trivial case is the
    /// caller's to handle.
    InsufficientInput,
    /// The computed pair could not be located in the input sequence. The
    /// recursion guarantees a valid in-set pair, so this variant is proved
    /// unreachable; it is kept so that the failure taxonomy is explicit.
    InternalInvariantViolation,
}

/// `ranks` lists positions of `px` drawn from `[lo, hi)`, each at most
/// once, every position of `[lo, hi)` among them, in nondecreasing order
/// of the y-coordinate of the point each position holds.
pub open spec fn rank_view(px: Seq<Point>, ranks: Seq<usize>, lo: int, hi: int) -> bool {
    &&& forall|k: int| 0 <= k < ranks.len() ==> lo <= #[trigger] ranks[k] < hi
    &&& ranks.no_duplicates()
    &&& ranks_sorted_by_y(px, ranks)
    &&& forall|r: usize| lo <= r < hi ==> #[trigger] ranks.contains(r)
}

/// One recursive level over the x-sorted points `px[lo..hi]`, whose
/// y-sorted view is `py`. Returns two distinct positions of `[lo, hi)`.
#[verifier::loop_isolation(false)]
#[verifier::rlimit(100)]
fn closest_rec(px: &Vec<Point>, lo: usize, hi: usize, py: &Vec<usize>) -> (r: (usize, usize))
    requires
        valid_points(px@),
        lo + 2 <= hi,
        hi <= px@.len(),
        sorted_by_x(px@),
        rank_view(px@, py@, lo as int, hi as int),
    ensures
        lo <= r.0 < hi,
        lo <= r.1 < hi,
        r.0 != r.1,
        forall|a: int, b: int|
            lo <= a < b < hi ==> dist_sq(px@[r.0 as int], px@[r.1 as int]) <= #[trigger] dist_sq(
                px@[a],
                px@[b],
            ),
    decreases hi - lo,
{
    if hi - lo <= 3 {
        return closest_in_range(px, lo, hi);
    }
    let mid: usize = lo + (hi - lo) / 2;
    let mut qy: Vec<usize> = Vec::new();
    let mut ry: Vec<usize> = Vec::new();
    let mut k: usize = 0;
    while k < py.len()
        invariant
            k <= py@.len(),
            forall|t: int| 0 <= t < qy@.len() ==> lo <= #[trigger] qy@[t] < mid,
            forall|t: int| 0 <= t < ry@.len() ==> mid <= #[trigger] ry@[t] < hi,
            forall|t: int|
                0 <= t < qy@.len() ==> py@.subrange(0, k as int).contains(#[trigger] qy@[t]),
            forall|t: int|
                0 <= t < ry@.len() ==> py@.subrange(0, k as int).contains(#[trigger] ry@[t]),
            qy@.no_duplicates(),
            ry@.no_duplicates(),
            ranks_sorted_by_y(px@, qy@),
            ranks_sorted_by_y(px@, ry@),
            forall|u: int| 0 <= u < k && py@[u] < mid ==> qy@.contains(#[trigger] py@[u]),
            forall|u: int| 0 <= u < k && py@[u] >= mid ==> ry@.contains(#[trigger] py@[u]),
        decreases py@.len() - k,
    {
        let rk: usize = py[k];
        if rk < mid {
            let ghost qy0 = qy@;
            qy.push(rk);
            proof {
                lemma_partition_push(px@, py@, qy0, rk, k as int, lo as int, mid as int);
            }
        } else {
            let ghost ry0 = ry@;
            ry.push(rk);
            proof {
                lemma_partition_push(px@, py@, ry0, rk, k as int, mid as int, hi as int);
            }
        }
        k = k + 1;
    }
    proof {
        assert forall|r: usize| lo <= r < mid implies qy@.contains(r) by {
            assert(py@.contains(r));
            let u = choose|u: int| 0 <= u < py@.len() && py@[u] == r;
            assert(qy@.contains(py@[u]));
        }
        assert forall|r: usize| mid <= r < hi implies ry@.contains(r) by {
            assert(py@.contains(r));
            let u = choose|u: int| 0 <= u < py@.len() && py@[u] == r;
            assert(ry@.contains(py@[u]));
        }
        assert(rank_view(px@, qy@, lo as int, mid as int));
        assert(rank_view(px@, ry@, mid as int, hi as int));
    }
    let (l0, l1) = closest_rec(px, lo, mid, &qy);
    let (m0, m1) = closest_rec(px, mid, hi, &ry);
    let dl: u64 = dist_sq_u64(px[l0], px[l1]);
    let dm: u64 = dist_sq_u64(px[m0], px[m1]);
    let mut b0: usize = l0;
    let mut b1: usize = l1;
    let mut bd: u64 = dl;
    if dm < dl {
        b0 = m0;
        b1 = m1;
        bd = dm;
    }
    let delta: u64 = bd;
    let line_x: i64 = px[mid - 1].x;
    let mut strip: Vec<usize> = Vec::new();
    k = 0;
    while k < py.len()
        invariant
            k <= py@.len(),
            forall|t: int| 0 <= t < strip@.len() ==> lo <= #[trigger] strip@[t] < hi,
            forall|t: int|
                0 <= t < strip@.len() ==> py@.subrange(0, k as int).contains(#[trigger] strip@[t]),
            strip@.no_duplicates(),
            ranks_sorted_by_y(px@, strip@),
            forall|t: int|
                0 <= t < strip@.len() ==> (px@[#[trigger] strip@[t] as int].x - line_x) * (px@[
                    strip@[t] as int].x - line_x) < delta,
            forall|u2: int|
                0 <= u2 < k && (px@[#[trigger] py@[u2] as int].x - line_x) * (px@[py@[u2] as int].x
                    - line_x) < delta ==> strip@.contains(py@[u2]),
        decreases py@.len() - k,
    {
        let rk: usize = py[k];
        let dx: i64 = px[rk].x - line_x;
        proof {
            assert(0 <= (dx as int) * (dx as int) <= 4_000_000_000_000_000_000) by (
            nonlinear_arith)
                requires
                    -2_000_000_000 <= dx as int <= 2_000_000_000,
            ;
        }
        let dxs: i128 = (dx as i128) * (dx as i128);
        proof {
            assert(dxs as int == (px@[rk as int].x - line_x) * (px@[rk as int].x - line_x));
        }
        if dxs < (delta as i128) {
            let ghost strip0 = strip@;
            strip.push(rk);
            proof {
                lemma_partition_push(px@, py@, strip0, rk, k as int, lo as int, hi as int);
                assert forall|t: int|
                    0 <= t < strip@.len() implies (px@[#[trigger] strip@[t] as int].x - line_x) * (
                px@[strip@[t] as int].x - line_x) < delta by {
                    if t < strip0.len() {
                        assert(strip@[t] == strip0[t]);
                    } else {
                        assert(strip@[t] == rk);
                    }
                }
            }
        }
        k = k + 1;
    }
    proof {
        assert forall|r: usize|
            lo <= r < hi && (px@[r as int].x - line_x) * (px@[r as int].x - line_x)
                < delta implies strip@.contains(r) by {
            assert(py@.contains(r));
            let u2 = choose|u2: int| 0 <= u2 < py@.len() && py@[u2] == r;
            assert(strip@.contains(py@[u2]));
        }
    }
    let ghost sseq = strip@;
    let mut u: usize = 0;
    while u < strip.len()
        invariant
            sseq == strip@,
            u <= strip@.len(),
            lo <= b0 < hi,
            lo <= b1 < hi,
            b0 != b1,
            bd <= delta,
            bd as int == dist_sq(px@[b0 as int], px@[b1 as int]),
            forall|u1: int, w1: int|
                0 <= u1 < u && u1 < w1 < sseq.len() && w1 - u1 <= 15 ==> bd as int
                    <= #[trigger] dist_sq(px@[sseq[u1] as int], px@[sseq[w1] as int]),
        decreases strip@.len() - u,
    {
        let mut w: usize = u + 1;
        while w < strip.len() && w - u <= 15
            invariant
                sseq == strip@,
                u < w <= strip@.len(),
                lo <= b0 < hi,
                lo <= b1 < hi,
                b0 != b1,
                bd <= delta,
                bd as int == dist_sq(px@[b0 as int], px@[b1 as int]),
                forall|u1: int, w1: int|
                    0 <= u1 < u && u1 < w1 < sseq.len() && w1 - u1 <= 15 ==> bd as int
                        <= #[trigger] dist_sq(px@[sseq[u1] as int], px@[sseq[w1] as int]),
                forall|w1: int|
                    u < w1 < w ==> bd as int <= #[trigger] dist_sq(
                        px@[sseq[u as int] as int],
                        px@[sseq[w1] as int],
                    ),
            decreases strip@.len() - w,
        {
            let d: u64 = dist_sq_u64(px[strip[u]], px[strip[w]]);
            if d < bd {
                b0 = strip[u];
                b1 = strip[w];
                bd = d;
            }
            w = w + 1;
        }
        u = u + 1;
    }
    proof {
        assert forall|a: int, b: int| lo <= a < b < hi implies dist_sq(
            px@[b0 as int],
            px@[b1 as int],
        ) <= #[trigger] dist_sq(px@[a], px@[b]) by {
            if b < mid {
                assert(dist_sq(px@[l0 as int], px@[l1 as int]) <= dist_sq(px@[a], px@[b]));
            } else if a >= mid {
                assert(dist_sq(px@[m0 as int], px@[m1 as int]) <= dist_sq(px@[a], px@[b]));
            } else {
                if dist_sq(px@[a], px@[b]) < delta as int {
                    lemma_cross_pair_in_window(px@, a, b, mid as int, line_x as int, delta as int);
                    assert(sseq.contains(a as usize));
                    assert(sseq.contains(b as usize));
                    let ua = choose|ua: int| 0 <= ua < sseq.len() && sseq[ua] == a as usize;
                    let ub = choose|ub: int| 0 <= ub < sseq.len() && sseq[ub] == b as usize;
                    assert(ua != ub);
                    if ua < ub {
                        if ub - ua <= 15 {
                            assert(bd as int <= dist_sq(px@[sseq[ua] as int], px@[sseq[ub] as int]));
                        } else {
                            lemma_strip_window(
                                px@,
                                sseq,
                                lo as int,
                                hi as int,
                                mid as int,
                                line_x as int,
                                delta as int,
                                ua,
                                ub,
                            );
                            assert(false);
                        }
                    } else {
                        lemma_dist_sq_sym(px@[a], px@[b]);
                        if ua - ub <= 15 {
                            assert(bd as int <= dist_sq(px@[sseq[ub] as int], px@[sseq[ua] as int]));
                        } else {
                            lemma_strip_window(
                                px@,
                                sseq,
                                lo as int,
                                hi as int,
                                mid as int,
                                line_x as int,
                                delta as int,
                                ub,
                                ua,
                            );
                            assert(false);
                        }
                    }
                }
            }
        }
    }
    (b0, b1)
}

/// A cross pair closer than the search radius lies, on both sides, within
/// the radius of the dividing line: each member is no farther from the
/// line in x than the pair is from each other.
proof fn lemma_cross_pair_in_window(px: Seq<Point>, a: int, b: int, mid: int, line: int, d: int)
    requires
        0 <= a < mid <= b < px.len(),
        1 <= mid,
        sorted_by_x(px),
        px[mid - 1].x == line,
        dist_sq(px[a], px[b]) < d,
    ensures
        (px[a].x - line) * (px[a].x - line) < d,
        (px[b].x - line) * (px[b].x - line) < d,
{
    let pa = px[a];
    let pb = px[b];
    assert(pa.x <= px[mid - 1].x);
    assert(px[mid - 1].x <= pb.x);
    let w = pb.x - pa.x;
    assert((pa.x - pb.x) * (pa.x - pb.x) == w * w) by (nonlinear_arith)
        requires
            w == pb.x as int - pa.x as int,
    ;
    assert((pa.y - pb.y) * (pa.y - pb.y) >= 0) by (nonlinear_arith);
    assert(w * w <= dist_sq(pa, pb));
    let la = line - pa.x;
    lemma_sq_monotone(la, w);
    assert((pa.x - line) * (pa.x - line) == la * la) by (nonlinear_arith)
        requires
            la == line - pa.x as int,
    ;
    let lb = pb.x - line;
    lemma_sq_monotone(lb, w);
}

/// Pushing the rank `py[k]` onto a partition that so far holds ranks of
/// `[lo, hi)` drawn from `py[0..k]` keeps it duplicate-free, y-sorted and
/// prefix-drawn, provided the new rank lies in `[lo, hi)`.
proof fn lemma_partition_push(
    px: Seq<Point>,
    py: Seq<usize>,
    part: Seq<usize>,
    rk: usize,
    k: int,
    lo: int,
    hi: int,
)
    requires
        0 <= k < py.len(),
        py.no_duplicates(),
        ranks_sorted_by_y(px, py),
        forall|t: int| 0 <= t < py.len() ==> #[trigger] py[t] < px.len(),
        rk == py[k],
        lo <= rk < hi,
        forall|t: int| 0 <= t < part.len() ==> lo <= #[trigger] part[t] < hi,
        forall|t: int|
            0 <= t < part.len() ==> py.subrange(0, k).contains(#[trigger] part[t]),
        part.no_duplicates(),
        ranks_sorted_by_y(px, part),
    ensures
        forall|t: int| 0 <= t < part.push(rk).len() ==> lo <= #[trigger] part.push(rk)[t] < hi,
        forall|t: int|
            0 <= t < part.push(rk).len() ==> py.subrange(0, k + 1).contains(
                #[trigger] part.push(rk)[t],
            ),
        part.push(rk).no_duplicates(),
        ranks_sorted_by_y(px, part.push(rk)),
        part.push(rk).contains(rk),
        forall|r: usize| part.contains(r) ==> part.push(rk).contains(r),
{
    let pn = part.push(rk);
    assert forall|t: int| 0 <= t < pn.len() implies lo <= #[trigger] pn[t] < hi by {
        if t < part.len() {
            assert(pn[t] == part[t]);
        } else {
            assert(pn[t] == rk);
        }
    }
    let pre = py.subrange(0, k);
    let pre1 = py.subrange(0, k + 1);
    assert forall|t: int| 0 <= t < pn.len() implies pre1.contains(#[trigger] pn[t]) by {
        if t < part.len() {
            let u = choose|u: int| 0 <= u < pre.len() && pre[u] == part[t];
            assert(pre1[u] == py[u] && py[u] == part[t]);
        } else {
            assert(pre1[k] == py[k] && pn[t] == py[k]);
        }
    }
    assert forall|t: int| 0 <= t < part.len() implies part[t] != rk by {
        let u = choose|u: int| 0 <= u < pre.len() && pre[u] == part[t];
        assert(py[u] == part[t]);
        assert(py[u] != py[k]);
    }
    assert forall|t1: int, t2: int|
        0 <= t1 < pn.len() && 0 <= t2 < pn.len() && t1 != t2 implies pn[t1] != pn[t2] by {
        if t1 < part.len() && t2 < part.len() {
            assert(pn[t1] == part[t1] && pn[t2] == part[t2]);
        } else if t1 < part.len() {
            assert(pn[t2] == rk && pn[t1] == part[t1]);
        } else if t2 < part.len() {
            assert(pn[t1] == rk && pn[t2] == part[t2]);
        }
    }
    assert forall|t1: int, t2: int|
        #![trigger pn[t1], pn[t2]]
        0 <= t1 < t2 < pn.len() implies px[pn[t1] as int].y <= px[pn[t2] as int].y by {
        if t2 < part.len() {
            assert(pn[t1] == part[t1] && pn[t2] == part[t2]);
        } else {
            assert(pn[t2] == rk);
            let u = choose|u: int| 0 <= u < pre.len() && pre[u] == part[t1];
            assert(py[u] == part[t1]);
            assert(px[py[u] as int].y <= px[py[k] as int].y);
        }
    }
    assert(pn[part.len() as int] == rk);
    assert forall|r: usize| part.contains(r) implies pn.contains(r) by {
        let t = choose|t: int| 0 <= t < part.len() && part[t] == r;
        assert(pn[t] == r);
    }
}

/// Find the first position holding `target`.
fn find_first(pts: &Vec<Point>, target: Point) -> (r: Option<usize>)
    ensures
        r is Some ==> r->Some_0 < pts@.len() && pts@[r->Some_0 as int] == target && forall|t: int|
            0 <= t < r->Some_0 ==> #[trigger] pts@[t] != target,
        r is None ==> forall|t: int| 0 <= t < pts@.len() ==> #[trigger] pts@[t] != target,
{
    let n: usize = pts.len();
    let mut k: usize = 0;
    while k < n
        invariant
            n == pts@.len(),
            k <= n,
            forall|t: int| 0 <= t < k ==> #[trigger] pts@[t] != target,
        decreases n - k,
    {
        if pts[k] == target {
            return Some(k);
        }
        k = k + 1;
    }
    None
}

/// Find the first position other than `exclude` holding `target`.
fn find_first_excluding(pts: &Vec<Point>, target: Point, exclude: usize) -> (r: Option<usize>)
    ensures
        r is Some ==> r->Some_0 < pts@.len() && r->Some_0 != exclude && pts@[r->Some_0 as int]
            == target,
        r is None ==> forall|t: int|
            0 <= t < pts@.len() && t != exclude ==> #[trigger] pts@[t] != target,
{
    let n: usize = pts.len();
    let mut k: usize = 0;
    while k < n
        invariant
            n == pts@.len(),
            k <= n,
            forall|t: int| 0 <= t < k && t != exclude ==> #[trigger] pts@[t] != target,
        decreases n - k,
    {
        if k != exclude && pts[k] == target {
            return Some(k);
        }
        k = k + 1;
    }
    None
}

/// Two multiset-equal sequences share their minimal pairwise distances:
/// a pair of distinct positions of one is matched, value for value, by a
/// pair of distinct positions of the other.
proof fn lemma_min_transfers(s: Seq<Point>, t: Seq<Point>, i: int, j: int)
    requires
        s.to_multiset() == t.to_multiset(),
        0 <= i < s.len(),
        0 <= j < s.len(),
        i != j,
        forall|a: int, b: int|
            0 <= a < b < s.len() ==> dist_sq(s[i], s[j]) <= #[trigger] dist_sq(s[a], s[b]),
    ensures
        forall|c: int, e: int|
            0 <= c < e < t.len() ==> dist_sq(s[i], s[j]) <= #[trigger] dist_sq(t[c], t[e]),
{
    assert forall|c: int, e: int| 0 <= c < e < t.len() implies dist_sq(s[i], s[j])
        <= #[trigger] dist_sq(t[c], t[e]) by {
        assert(t.contains(t[c]));
        vstd::seq_lib::to_multiset_contains(t, t[c]);
        vstd::seq_lib::to_multiset_contains(s, t[c]);
        assert(s.contains(t[c]));
        let f = choose|f: int| 0 <= f < s.len() && s[f] == t[c];
        lemma_pair_occurrence(t, s, c, e, f);
        let g = choose|g: int| 0 <= g < s.len() && g != f && s[g] == t[e];
        if f < g {
            assert(dist_sq(s[i], s[j]) <= dist_sq(s[f], s[g]));
        } else {
            assert(dist_sq(s[i], s[j]) <= dist_sq(s[g], s[f]));
            lemma_dist_sq_sym(s[g], s[f]);
        }
    }
}

/// Closest pair by divide and conquer: sort by x, build the y-sorted view,
/// recurse, then map the two point values found back to two distinct
/// indices of the original sequence. Fails exactly when fewer than two
/// points are supplied; the returned indices are distinct positions of the
/// input whose points achieve the global minimum pairwise distance, and
/// duplicate coordinates never collapse them to one position.
pub fn divide_and_conquer_closest_points(points: &Vec<Point>) -> (r: Result<
    (usize, usize),
    ClosestPairError,
>)
    requires
        valid_points(points@),
    ensures
        points@.len() < 2 <==> r is Err,
        r is Err ==> r->Err_0 == ClosestPairError::InsufficientInput,
        r is Ok ==> min_dist_pair_unordered(points@, r->Ok_0.0 as int, r->Ok_0.1 as int),
{
    let n: usize = points.len();
    if n < 2 {
        return Err(ClosestPairError::InsufficientInput);
    }
    let px = sorted_copy_by_x(points);
    proof {
        assert forall|i: int| 0 <= i < px@.len() implies valid_point(#[trigger] px@[i]) by {
            assert(px@.contains(px@[i]));
            vstd::seq_lib::to_multiset_contains(px@, px@[i]);
            vstd::seq_lib::to_multiset_contains(points@, px@[i]);
            let w = choose|w: int| 0 <= w < points@.len() && points@[w] == px@[i];
            assert(valid_point(points@[w]));
        }
    }
    let py = ranks_by_y(&px);
    let (r0, r1) = closest_rec(&px, 0, n, &py);
    let a: Point = px[r0];
    let b: Point = px[r1];
    match find_first(points, a) {
        None => {
            proof {
                assert(px@.contains(a));
                vstd::seq_lib::to_multiset_contains(px@, a);
                vstd::seq_lib::to_multiset_contains(points@, a);
                let w = choose|w: int| 0 <= w < points@.len() && points@[w] == a;
                assert(false);
            }
            Err(ClosestPairError::InternalInvariantViolation)
        },
        Some(i1) => {
            match find_first_excluding(points, b, i1) {
                None => {
                    proof {
                        lemma_pair_occurrence(px@, points@, r0 as int, r1 as int, i1 as int);
                        assert(false);
                    }
                    Err(ClosestPairError::InternalInvariantViolation)
                },
                Some(i2) => {
                    proof {
                        lemma_min_transfers(px@, points@, r0 as int, r1 as int);
                        assert(points@[i1 as int] == px@[r0 as int]);
                        assert(points@[i2 as int] == px@[r1 as int]);
                        assert(dist_sq(points@[i1 as int], points@[i2 as int]) == dist_sq(
                            px@[r0 as int],
                            px@[r1 as int],
                        ));
                    }
                    Ok((i1, i2))
                },
            }
        },
    }
}

} // verus!

//! Points, squared Euclidean distance, and the predicates that describe a
//! closest pair of a sequence.

use vstd::prelude::*;

verus! {

/// Largest coordinate magnitude the library accepts. With coordinates in
/// this range every squared distance fits in `u64`.
pub const COORD_LIMIT: i64 = 1_000_000_000;

/// An immutable 2-D point with integer coordinates; equality is
/// coordinate equality.
#[derive(Clone, Copy, PartialEq, Eq, Structural, Debug)]
pub struct Point {
    pub x: i64,
    pub y: i64,
}

pub open spec fn valid_point(p: Point) -> bool {
    &&& -COORD_LIMIT <= p.x <= COORD_LIMIT
    &&& -COORD_LIMIT <= p.y <= COORD_LIMIT
}

pub open spec fn valid_points(s: Seq<Point>) -> bool {
    forall|i: int| 0 <= i < s.len() ==> valid_point(#[trigger] s[i])
}

/// Squared Euclidean distance. Comparing squared distances orders pairs
/// exactly as comparing the distances themselves.
pub open spec fn dist_sq(p: Point, q: Point) -> int {
    (p.x - q.x) * (p.x - q.x) + (p.y - q.y) * (p.y - q.y)
}

pub proof fn lemma_dist_sq_nonneg(p: Point, q: Point)
    ensures
        dist_sq(p, q) >= 0,
{
    assert((p.x - q.x) * (p.x - q.x) >= 0) by (nonlinear_arith);
    assert((p.y - q.y) * (p.y - q.y) >= 0) by (nonlinear_arith);
}

pub proof fn lemma_dist_sq_sym(p: Point, q: Point)
    ensures
        dist_sq(p, q) == dist_sq(q, p),
{
    assert((p.x - q.x) * (p.x - q.x) == (q.x - p.x) * (q.x - p.x)) by (nonlinear_arith);
    assert((p.y - q.y) * (p.y - q.y) == (q.y - p.y) * (q.y - p.y)) by (nonlinear_arith);
}

pub proof fn lemma_dist_sq_bound(p: Point, q: Point)
    requires
        valid_point(p),
        valid_point(q),
    ensures
        0 <= dist_sq(p, q) <= 8_000_000_000_000_000_000,
{
    assert((p.x - q.x) * (p.x - q.x) <= 4_000_000_000_000_000_000) by (nonlinear_arith)
        requires -2_000_000_000 <= p.x - q.x <= 2_000_000_000;
    assert((p.y - q.y) * (p.y - q.y) <= 4_000_000_000_000_000_000) by (nonlinear_arith)
        requires -2_000_000_000 <= p.y - q.y <= 2_000_000_000;
    lemma_dist_sq_nonneg(p, q);
}

/// Exact squared distance between two in-range points.
pub fn dist_sq_u64(p: Point, q: Point) -> (d: u64)
    requires
        valid_point(p),
        valid_point(q),
    ensures
        d as int == dist_sq(p, q),
{
    proof {
        lemma_dist_sq_bound(p, q);
    }
    let dx: i64 = p.x - q.x;
    let dy: i64 = p.y - q.y;
    proof {
        assert(0 <= (dx as int) * (dx as int) <= 4_000_000_000_000_000_000) by (nonlinear_arith)
            requires -2_000_000_000 <= dx as int <= 2_000_000_000;
        assert(0 <= (dy as int) * (dy as int) <= 4_000_000_000_000_000_000) by (nonlinear_arith)
            requires -2_000_000_000 <= dy as int <= 2_000_000_000;
    }
    let sq: i128 = (dx as i128) * (dx as i128) + (dy as i128) * (dy as i128);
    sq as u64
}

/// Strict lexicographic order on index pairs: `(a, b)` is scanned before
/// `(i, j)` by a row-by-row pairwise scan.
pub open spec fn pair_lt(a: int, b: int, i: int, j: int) -> bool {
    a < i || (a == i && b < j)
}

/// `(i, j)` is an ordered pair inside `[lo, hi)` whose distance is minimal
/// among all pairs drawn from that range.
pub open spec fn min_pair_in(s: Seq<Point>, lo: int, hi: int, i: int, j: int) -> bool {
    &&& lo <= i < j < hi <= s.len()
    &&& forall|a: int, b: int|
        lo <= a < b < hi ==> dist_sq(s[i], s[j]) <= #[trigger] dist_sq(s[a], s[b])
}

/// `(i, j)` is the minimal pair of `[lo, hi)` that a pairwise scan in
/// lexicographic order meets first: every pair scanned earlier is strictly
/// farther apart.
pub open spec fn first_min_pair_in(s: Seq<Point>, lo: int, hi: int, i: int, j: int) -> bool {
    &&& min_pair_in(s, lo, hi, i, j)
    &&& forall|a: int, b: int|
        lo <= a < b < hi && pair_lt(a, b, i, j) ==> #[trigger] dist_sq(s[a], s[b]) > dist_sq(
            s[i],
            s[j],
        )
}

/// The unordered form: two distinct indices of `[0, n)` whose distance is
/// minimal among all pairs of the sequence.
pub open spec fn min_dist_pair_unordered(s: Seq<Point>, i: int, j: int) -> bool {
    &&& 0 <= i < s.len()
    &&& 0 <= j < s.len()
    &&& i != j
    &&& forall|a: int, b: int|
        0 <= a < b < s.len() ==> dist_sq(s[i], s[j]) <= #[trigger] dist_sq(s[a], s[b])
}

/// A sequence has at most one first-scanned minimal pair: the exhaustive
/// scan is deterministic.
pub proof fn lemma_first_min_pair_unique(s: Seq<Point>, i1: int, j1: int, i2: int, j2: int)
    requires
        first_min_pair_in(s, 0, s.len() as int, i1, j1),
        first_min_pair_in(s, 0, s.len() as int, i2, j2),
    ensures
        i1 == i2,
        j1 == j2,
{
    if pair_lt(i1, j1, i2, j2) {
        assert(dist_sq(s[i1], s[j1]) > dist_sq(s[i2], s[j2]));
        assert(dist_sq(s[i2], s[j2]) <= dist_sq(s[i1], s[j1]));
        assert(dist_sq(s[i1], s[j1]) <= dist_sq(s[i2], s[j2]));
        assert(false);
    } else if pair_lt(i2, j2, i1, j1) {
        assert(dist_sq(s[i2], s[j2]) > dist_sq(s[i1], s[j1]));
        assert(dist_sq(s[i1], s[j1]) <= dist_sq(s[i2], s[j2]));
        assert(dist_sq(s[i2], s[j2]) <= dist_sq(s[i1], s[j1]));
        assert(false);
    }
}

/// The two entry points agree on the minimum achievable distance: a pair
/// meeting `brute_force_closest_points`'s contract and a pair meeting
/// `divide_and_conquer_closest_points`'s contract are equally far apart,
/// whichever tied pair each reports.
pub proof fn lemma_algorithms_agree_on_distance(
    s: Seq<Point>,
    bi: int,
    bj: int,
    di: int,
    dj: int,
)
    requires
        first_min_pair_in(s, 0, s.len() as int, bi, bj),
        min_dist_pair_unordered(s, di, dj),
    ensures
        dist_sq(s[bi], s[bj]) == dist_sq(s[di], s[dj]),
{
    assert(dist_sq(s[di], s[dj]) <= dist_sq(s[bi], s[bj]));
    if di < dj {
        assert(dist_sq(s[bi], s[bj]) <= dist_sq(s[di], s[dj]));
    } else {
        assert(dist_sq(s[bi], s[bj]) <= dist_sq(s[dj], s[di]));
        lemma_dist_sq_sym(s[dj], s[di]);
    }
}

/// Two sequences with the same multiset of points hold any pair of distinct
/// occurrences in common: given distinct positions `i != j` of `s`, and a
/// position `i1` of `t` holding `s[i]`, some other position of `t` holds
/// `s[j]`.
pub proof fn lemma_pair_occurrence(s: Seq<Point>, t: Seq<Point>, i: int, j: int, i1: int)
    requires
        s.to_multiset() == t.to_multiset(),
        0 <= i < s.len(),
        0 <= j < s.len(),
        i != j,
        0 <= i1 < t.len(),
        t[i1] == s[i],
    ensures
        exists|k: int| 0 <= k < t.len() && k != i1 && #[trigger] t[k] == s[j],
{
    let b = s[j];
    vstd::seq_lib::to_multiset_remove(s, i);
    s.remove_ensures(i);
    let jr: int = if j < i {
        j
    } else {
        j - 1
    };
    assert(s.remove(i)[jr] == b);
    assert(s.remove(i).contains(b));
    vstd::seq_lib::to_multiset_contains(s.remove(i), b);
    assert(s.to_multiset().remove(s[i]).count(b) > 0);
    vstd::seq_lib::to_multiset_remove(t, i1);
    assert(t.remove(i1).to_multiset().count(b) > 0);
    vstd::seq_lib::to_multiset_contains(t.remove(i1), b);
    assert(t.remove(i1).contains(b));
    let kr = choose|kr: int| 0 <= kr < t.remove(i1).len() && t.remove(i1)[kr] == b;
    t.remove_ensures(i1);
    let k: int = if kr < i1 {
        kr
    } else {
        kr + 1
    };
    assert(t[k] == b);
    assert(0 <= k < t.len() && k != i1 && t[k] == s[j]);
}

} // verus!

//! Sorted views of a point sequence: the points sorted by x, and the
//! positions of the x-sorted points (their ranks) sorted by y. Both are
//! built by insertion sort, proved to permute their input.

use crate::geometry::Point;
use vstd::multiset::Multiset;
use vstd::prelude::*;

verus! {

pub open spec fn sorted_by_x(s: Seq<Point>) -> bool {
    forall|a: int, b: int| #![trigger s[a], s[b]] 0 <= a < b < s.len() ==> s[a].x <= s[b].x
}

/// `ranks` lists positions of `px` in nondecreasing order of y-coordinate.
pub open spec fn ranks_sorted_by_y(px: Seq<Point>, ranks: Seq<usize>) -> bool {
    forall|a: int, b: int|
        #![trigger ranks[a], ranks[b]]
        0 <= a < b < ranks.len() ==> px[ranks[a] as int].y <= px[ranks[b] as int].y
}

proof fn lemma_multiset_remove_insert<A>(m: Multiset<A>, x: A)
    requires
        m.count(x) > 0,
    ensures
        m.remove(x).insert(x) == m,
{
    broadcast use vstd::multiset::group_multiset_axioms;

    assert(m.remove(x).insert(x) =~= m);
}

/// The input points in nondecreasing order of x-coordinate; ties keep no
/// particular order. The result is a permutation of the input.
pub fn sorted_copy_by_x(points: &Vec<Point>) -> (r: Vec<Point>)
    ensures
        r@.to_multiset() == points@.to_multiset(),
        r@.len() == points@.len(),
        sorted_by_x(r@),
{
    let n: usize = points.len();
    let mut v: Vec<Point> = Vec::new();
    let mut k: usize = 0;
    while k < n
        invariant
            n == points@.len(),
            k <= n,
            v@ == points@.subrange(0, k as int),
        decreases n - k,
    {
        v.push(points[k]);
        proof {
            assert(points@.subrange(0, k as int).push(points@[k as int]) =~= points@.subrange(
                0,
                k as int + 1,
            ));
        }
        k = k + 1;
    }
    proof {
        assert(v@ =~= points@);
    }
    if n < 2 {
        return v;
    }
    let mut i: usize = 1;
    while i < n
        invariant
            2 <= n == v@.len(),
            1 <= i <= n,
            v@.to_multiset() == points@.to_multiset(),
            forall|a: int, b: int| #![trigger v@[a], v@[b]] 0 <= a < b < i ==> v@[a].x <= v@[b].x,
        decreases n - i,
    {
        let ghost s0 = v@;
        let x: Point = v.remove(i);
        let ghost s1 = v@;
        proof {
            vstd::seq_lib::to_multiset_remove(s0, i as int);
            s0.remove_ensures(i as int);
        }
        let mut j: usize = i;
        while j > 0 && v[j - 1].x > x.x
            invariant
                v@ == s1,
                s1.len() == n - 1,
                i < n,
                j <= i,
                forall|t: int| #![trigger s1[t]] j <= t < i ==> s1[t].x > x.x,
            decreases j,
        {
            j = j - 1;
        }
        let ghost jg: int = j as int;
        v.insert(j, x);
        proof {
            vstd::seq_lib::to_multiset_insert(s1, jg, x);
            s1.insert_ensures(jg, x);
            vstd::seq_lib::to_multiset_contains(s0, x);
            assert(s0.contains(x));
            lemma_multiset_remove_insert(s0.to_multiset(), x);
            assert(v@.to_multiset() == points@.to_multiset());
            assert forall|a: int, b: int| #![trigger v@[a], v@[b]] 0 <= a < b < i + 1 implies v@[a].x
                <= v@[b].x by {
                if b < jg {
                    assert(v@[a] == s0[a] && v@[b] == s0[b]);
                } else if a < jg && b == jg {
                    assert(v@[a] == s0[a]);
                    assert(s0[jg - 1].x <= x.x);
                    assert(s0[a].x <= s0[jg - 1].x || a == jg - 1);
                } else if a < jg && b > jg {
                    assert(v@[a] == s0[a] && v@[b] == s1[b - 1] && s1[b - 1] == s0[b - 1]);
                } else if a == jg && b > jg {
                    assert(v@[a] == x && v@[b] == s0[b - 1]);
                    assert(s0[b - 1].x > x.x);
                } else {
                    assert(a > jg);
                    assert(v@[a] == s0[a - 1] && v@[b] == s0[b - 1]);
                }
            }
        }
        i = i + 1;
    }
    v
}

/// The positions `0 .. px.len()` ordered by the y-coordinate of the point
/// each position holds: the y-sorted view of an x-sorted array, kept as
/// ranks so that membership in either half is a comparison of positions.
#[verifier::rlimit(100)]
pub fn ranks_by_y(px: &Vec<Point>) -> (ranks: Vec<usize>)
    ensures
        ranks@.len() == px@.len(),
        forall|k: int| 0 <= k < ranks@.len() ==> #[trigger] ranks@[k] < px@.len(),
        ranks@.no_duplicates(),
        forall|r: usize| r < px@.len() ==> ranks@.contains(r),
        ranks_sorted_by_y(px@, ranks@),
{
    let n: usize = px.len();
    let mut v: Vec<usize> = Vec::new();
    let mut k: usize = 0;
    while k < n
        invariant
            n == px@.len(),
            k <= n,
            v@.len() == k,
            forall|t: int| 0 <= t < k ==> #[trigger] v@[t] == t,
        decreases n - k,
    {
        v.push(k);
        k = k + 1;
    }
    let ghost ident = v@;
    proof {
        assert(ident.no_duplicates());
        ident.lemma_multiset_has_no_duplicates();
    }
    if n >= 2 {
        let mut i: usize = 1;
        while i < n
            invariant
                2 <= n == v@.len(),
                n == px@.len(),
                1 <= i <= n,
                v@.to_multiset() == ident.to_multiset(),
                forall|t: int| 0 <= t < n ==> #[trigger] v@[t] < n,
                forall|a: int, b: int|
                    #![trigger v@[a], v@[b]]
                    0 <= a < b < i ==> px@[v@[a] as int].y <= px@[v@[b] as int].y,
            decreases n - i,
        {
            let ghost s0 = v@;
            let x: usize = v.remove(i);
            let ghost s1 = v@;
            proof {
                vstd::seq_lib::to_multiset_remove(s0, i as int);
                s0.remove_ensures(i as int);
            }
            let mut j: usize = i;
            while j > 0 && px[v[j - 1]].y > px[x].y
                invariant
                    v@ == s1,
                    s1.len() == n - 1,
                    n == px@.len(),
                    x < n,
                    i < n,
                    j <= i,
                    forall|t: int| 0 <= t < n - 1 ==> #[trigger] s1[t] < n,
                    forall|t: int| #![trigger s1[t]] j <= t < i ==> px@[s1[t] as int].y > px@[x as int].y,
                decreases j,
            {
                j = j - 1;
            }
            let ghost jg: int = j as int;
            v.insert(j, x);
            proof {
                vstd::seq_lib::to_multiset_insert(s1, jg, x);
                s1.insert_ensures(jg, x);
                vstd::seq_lib::to_multiset_contains(s0, x);
                lemma_multiset_remove_insert(s0.to_multiset(), x);
                assert forall|a: int, b: int|
                    #![trigger v@[a], v@[b]]
                    0 <= a < b < i + 1 implies px@[v@[a] as int].y <= px@[v@[b] as int].y by {
                    if b < jg {
                        assert(v@[a] == s0[a] && v@[b] == s0[b]);
                    } else if a < jg && b == jg {
                        assert(v@[a] == s0[a]);
                        assert(px@[s0[jg - 1] as int].y <= px@[x as int].y);
                        assert(px@[s0[a] as int].y <= px@[s0[jg - 1] as int].y || a == jg - 1);
                    } else if a < jg && b > jg {
                        assert(v@[a] == s0[a] && v@[b] == s0[b - 1]);
                    } else if a == jg && b > jg {
                        assert(v@[a] == x && v@[b] == s0[b - 1]);
                        assert(px@[s0[b - 1] as int].y > px@[x as int].y);
                    } else {
                        assert(a > jg);
                        assert(v@[a] == s0[a - 1] && v@[b] == s0[b - 1]);
                    }
                }
                assert forall|t: int| 0 <= t < n implies #[trigger] v@[t] < n by {
                    if t < jg {
                        assert(v@[t] == s1[t]);
                    } else if t == jg {
                        assert(v@[t] == x);
                    } else {
                        assert(v@[t] == s1[t - 1]);
                    }
                }
            }
            i = i + 1;
        }
    }
    proof {
        assert forall|r: usize| r < px@.len() implies v@.contains(r) by {
            assert(ident[r as int] == r);
            assert(ident.contains(r));
            vstd::seq_lib::to_multiset_contains(ident, r);
            vstd::seq_lib::to_multiset_contains(v@, r);
        }
        assert forall|x: usize| v@.to_multiset().contains(x) implies v@.to_multiset().count(x)
            == 1 by {
            assert(ident.to_multiset().contains(x) ==> ident.to_multiset().count(x) == 1);
        }
        v@.lemma_multiset_has_no_duplicates_conv();
        vstd::seq_lib::to_multiset_len(ident);
        vstd::seq_lib::to_multiset_len(v@);
    }
    v
}

} // verus!

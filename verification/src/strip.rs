//! The packing argument behind the combine step: inside the strip around
//! the dividing line, two points sixteen or more apart in y-order are at
//! least the search radius apart. The band between the two points splits
//! into sixteen classes (four x-quarters, two y-halves, two sides of the
//! midpoint split); two points of one class on one side would be closer
//! than the radius, contradicting each side's own minimality.

use crate::geometry::{dist_sq, lemma_dist_sq_sym, Point};
use crate::sorting::ranks_sorted_by_y;
use vstd::assert_by_contradiction;
use vstd::prelude::*;

verus! {

/// Which vertical quarter of the strip band `x` falls in, measured from
/// the dividing line in steps of half the search radius.
pub open spec fn x_class(x: int, line: int, d: int) -> int {
    if x <= line {
        if 4 * (line - x) * (line - x) <= d {
            1
        } else {
            0
        }
    } else {
        if 4 * (x - line) * (x - line) <= d {
            2
        } else {
            3
        }
    }
}

/// Which horizontal half of the band `y` falls in, measured from the
/// band's lower edge `y0` in steps of half the search radius.
pub open spec fn y_class(y: int, y0: int, d: int) -> int {
    if 4 * (y - y0) * (y - y0) <= d {
        0
    } else {
        1
    }
}

/// Two nonnegative values at most half the radius each are at most half
/// the radius apart.
proof fn lemma_close_small(a: int, b: int, d: int)
    requires
        a >= 0,
        b >= 0,
        4 * a * a <= d,
        4 * b * b <= d,
    ensures
        4 * (a - b) * (a - b) <= d,
{
    assert(4 * (a - b) * (a - b) <= d) by (nonlinear_arith)
        requires
            a >= 0,
            b >= 0,
            4 * a * a <= d,
            4 * b * b <= d,
    ;
}

/// Two values each strictly between half the radius and the radius are
/// strictly less than half the radius apart.
proof fn lemma_close_band(a: int, b: int, d: int)
    requires
        a >= 0,
        b >= 0,
        a * a < d,
        b * b < d,
        4 * a * a > d,
        4 * b * b > d,
    ensures
        4 * (a - b) * (a - b) < d,
{
    assert(4 * (a - b) * (a - b) < d) by (nonlinear_arith)
        requires
            a >= 0,
            b >= 0,
            a * a < d,
            b * b < d,
            4 * a * a > d,
            4 * b * b > d,
    ;
}

/// Squaring is monotone on nonnegative values.
pub proof fn lemma_sq_monotone(a: int, b: int)
    requires
        0 <= a <= b,
    ensures
        a * a <= b * b,
{
    assert(a * a <= b * b) by (nonlinear_arith)
        requires
            0 <= a <= b,
    ;
}

/// Strip points in the same x-quarter differ by at most half the radius
/// in x.
proof fn lemma_same_x_class(x1: int, x2: int, line: int, d: int)
    requires
        (x1 - line) * (x1 - line) < d,
        (x2 - line) * (x2 - line) < d,
        x_class(x1, line, d) == x_class(x2, line, d),
    ensures
        4 * (x1 - x2) * (x1 - x2) <= d,
{
    assert((line - x1) * (line - x1) == (x1 - line) * (x1 - line)) by (nonlinear_arith);
    assert((line - x2) * (line - x2) == (x2 - line) * (x2 - line)) by (nonlinear_arith);
    if x1 <= line {
        let a = line - x1;
        let b = line - x2;
        if 4 * a * a <= d {
            lemma_close_small(a, b, d);
        } else {
            lemma_close_band(a, b, d);
        }
        assert(4 * (x1 - x2) * (x1 - x2) == 4 * (a - b) * (a - b)) by (nonlinear_arith)
            requires
                a == line - x1,
                b == line - x2,
        ;
    } else {
        let a = x1 - line;
        let b = x2 - line;
        if 4 * a * a <= d {
            lemma_close_small(a, b, d);
        } else {
            lemma_close_band(a, b, d);
        }
        assert(4 * (x1 - x2) * (x1 - x2) == 4 * (a - b) * (a - b)) by (nonlinear_arith)
            requires
                a == x1 - line,
                b == x2 - line,
        ;
    }
}

/// Band points in the same y-half differ by at most half the radius in y.
proof fn lemma_same_y_class(y1: int, y2: int, y0: int, ytop: int, d: int)
    requires
        y0 <= y1 <= ytop,
        y0 <= y2 <= ytop,
        (ytop - y0) * (ytop - y0) < d,
        y_class(y1, y0, d) == y_class(y2, y0, d),
    ensures
        4 * (y1 - y2) * (y1 - y2) <= d,
{
    let a = y1 - y0;
    let b = y2 - y0;
    lemma_sq_monotone(a, ytop - y0);
    lemma_sq_monotone(b, ytop - y0);
    if 4 * a * a <= d {
        lemma_close_small(a, b, d);
    } else {
        lemma_close_band(a, b, d);
    }
    assert(4 * (y1 - y2) * (y1 - y2) == 4 * (a - b) * (a - b)) by (nonlinear_arith)
        requires
            a == y1 - y0,
            b == y2 - y0,
    ;
}

/// Two band points in the same x-quarter and the same y-half are strictly
/// closer than the search radius.
proof fn lemma_same_cell_close(p1: Point, p2: Point, line: int, y0: int, ytop: int, d: int)
    requires
        d > 0,
        (p1.x - line) * (p1.x - line) < d,
        (p2.x - line) * (p2.x - line) < d,
        y0 <= p1.y <= ytop,
        y0 <= p2.y <= ytop,
        (ytop - y0) * (ytop - y0) < d,
        x_class(p1.x as int, line, d) == x_class(p2.x as int, line, d),
        y_class(p1.y as int, y0, d) == y_class(p2.y as int, y0, d),
    ensures
        dist_sq(p1, p2) < d,
{
    lemma_same_x_class(p1.x as int, p2.x as int, line, d);
    lemma_same_y_class(p1.y as int, p2.y as int, y0, ytop, d);
    let dx = p1.x - p2.x;
    let dy = p1.y - p2.y;
    assert(dist_sq(p1, p2) == dx * dx + dy * dy);
    assert(4 * dx * dx == 4 * (p1.x as int - p2.x as int) * (p1.x as int - p2.x as int))
        by (nonlinear_arith)
        requires
            dx == p1.x as int - p2.x as int,
    ;
    assert(4 * dy * dy == 4 * (p1.y as int - p2.y as int) * (p1.y as int - p2.y as int))
        by (nonlinear_arith)
        requires
            dy == p1.y as int - p2.y as int,
    ;
    assert(4 * (dx * dx + dy * dy) <= 2 * d) by (nonlinear_arith)
        requires
            4 * dx * dx <= d,
            4 * dy * dy <= d,
    ;
}

/// More values than classes: some class repeats.
proof fn lemma_pigeonhole(s: Seq<int>, m: int)
    requires
        m >= 0,
        s.len() > m,
        forall|t: int| 0 <= t < s.len() ==> 0 <= #[trigger] s[t] < m,
    ensures
        exists|t1: int, t2: int| 0 <= t1 < t2 < s.len() && s[t1] == s[t2],
{
    assert_by_contradiction!(exists|t1: int, t2: int| 0 <= t1 < t2 < s.len() && s[t1] == s[t2], {
        assert forall|i: int, j: int|
            0 <= i < s.len() && 0 <= j < s.len() && i != j implies s[i] != s[j] by {
            if i < j {
                assert(!(s[i] == s[j]));
            } else {
                assert(!(s[j] == s[i]));
            }
        }
        s.unique_seq_to_set();
        vstd::set_lib::lemma_int_range(0, m);
        assert forall|x: int| s.to_set().contains(x) implies vstd::set_lib::set_int_range(
            0,
            m,
        ).contains(x) by {
            let t = choose|t: int| 0 <= t < s.len() && s[t] == x;
            assert(0 <= s[t] < m);
        }
        vstd::set_lib::lemma_len_subset(s.to_set(), vstd::set_lib::set_int_range(0, m));
        assert(false);
    });
}

/// The packing bound of the combine step. `strip` holds distinct positions
/// of the x-sorted points `px`, each strictly within the search radius `d`
/// of the dividing line in x (squared measure), in nondecreasing y-order.
/// Positions below `mid` are pairwise at least `d` apart, and so are
/// positions at or above `mid`. Then two strip entries sixteen or more
/// apart in y-order are at least `d` apart.
pub proof fn lemma_strip_window(
    px: Seq<Point>,
    strip: Seq<usize>,
    lo: int,
    hi: int,
    mid: int,
    line: int,
    d: int,
    u0: int,
    v0: int,
)
    requires
        hi <= px.len(),
        lo <= mid <= hi,
        forall|t: int| 0 <= t < strip.len() ==> lo <= #[trigger] strip[t] < hi,
        strip.no_duplicates(),
        ranks_sorted_by_y(px, strip),
        forall|t: int|
            0 <= t < strip.len() ==> (px[#[trigger] strip[t] as int].x - line) * (px[strip[t] as int].x
                - line) < d,
        forall|r1: int, r2: int|
            lo <= r1 < r2 < mid ==> d <= #[trigger] dist_sq(px[r1], px[r2]),
        forall|r1: int, r2: int|
            mid <= r1 < r2 < hi ==> d <= #[trigger] dist_sq(px[r1], px[r2]),
        0 <= u0 < v0 < strip.len(),
        v0 - u0 >= 16,
    ensures
        dist_sq(px[strip[u0] as int], px[strip[v0] as int]) >= d,
{
    let pu = px[strip[u0] as int];
    let pv = px[strip[v0] as int];
    assert((pu.x - line) * (pu.x - line) >= 0) by (nonlinear_arith);
    assert(d > 0);
    assert_by_contradiction!(dist_sq(pu, pv) >= d, {
        let y0 = pu.y as int;
        let ytop = pv.y as int;
        assert(y0 <= ytop);
        let dxv = pu.x - pv.x;
        let dyv = pu.y - pv.y;
        assert(dist_sq(pu, pv) == dxv * dxv + dyv * dyv);
        assert(dxv * dxv >= 0) by (nonlinear_arith);
        assert((ytop - y0) * (ytop - y0) == dyv * dyv) by (nonlinear_arith)
            requires
                dyv == y0 - ytop,
        ;
        assert((ytop - y0) * (ytop - y0) < d);
        let cls = Seq::new(
            (v0 - u0 + 1) as nat,
            |t: int|
                x_class(px[strip[u0 + t] as int].x as int, line, d) + 4 * y_class(
                    px[strip[u0 + t] as int].y as int,
                    y0,
                    d,
                ) + 8 * (if strip[u0 + t] < mid {
                    0int
                } else {
                    1int
                }),
        );
        assert forall|t: int| 0 <= t < cls.len() implies 0 <= #[trigger] cls[t] < 16 by {
            assert(0 <= x_class(px[strip[u0 + t] as int].x as int, line, d) < 4);
            assert(0 <= y_class(px[strip[u0 + t] as int].y as int, y0, d) < 2);
        }
        lemma_pigeonhole(cls, 16);
        let (t1, t2): (int, int) = choose|t1: int, t2: int|
            0 <= t1 < t2 < cls.len() && cls[t1] == cls[t2];
        let q1 = strip[u0 + t1];
        let q2 = strip[u0 + t2];
        assert(q1 != q2);
        let p1 = px[q1 as int];
        let p2 = px[q2 as int];
        assert(x_class(p1.x as int, line, d) == x_class(p2.x as int, line, d));
        assert(y_class(p1.y as int, y0, d) == y_class(p2.y as int, y0, d));
        assert((q1 < mid) == (q2 < mid));
        assert(y0 <= p1.y <= ytop && y0 <= p2.y <= ytop);
        lemma_same_cell_close(p1, p2, line, y0, ytop, d);
        if q1 < q2 {
            assert(d <= dist_sq(px[q1 as int], px[q2 as int]));
        } else {
            assert(d <= dist_sq(px[q2 as int], px[q1 as int]));
            lemma_dist_sq_sym(p2, p1);
        }
        assert(false);
    });
}

} // verus!

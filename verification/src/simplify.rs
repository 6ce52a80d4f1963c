//! Ramer–Douglas–Peucker polyline simplification: keep the two endpoints,
//! find the interior point farthest from the chord, and recurse on both
//! halves while that distance exceeds the tolerance.
//!
//! Distances are compared exactly in fixed-point integers: the farthest
//! point is selected by the cross-product magnitude (proportional to the
//! perpendicular distance from the chord's line), and the tolerance test
//! compares that magnitude against `epsilon` times the floored chord
//! length. A degenerate chord (equal endpoints) falls back to squared
//! point distance against squared `epsilon`.

use crate::drawing::GestureDrawing;
use crate::geom::{all_in_range, in_range, isqrt, Point, COORD_LIMIT};
use vstd::prelude::*;

verus! {

/// |v|.
pub open spec fn abs_val(v: int) -> int {
    if v < 0 {
        -v
    } else {
        v
    }
}

/// Twice the signed area of the triangle (a, b, p): proportional to the
/// perpendicular distance of `p` from the line through `a` and `b`.
pub open spec fn cross(a: Point, b: Point, p: Point) -> int {
    (b.x - a.x) * (p.y - a.y) - (b.y - a.y) * (p.x - a.x)
}

/// Squared distance between two points.
pub open spec fn dist2(a: Point, p: Point) -> int {
    (p.x - a.x) * (p.x - a.x) + (p.y - a.y) * (p.y - a.y)
}

/// Floor of the square root of a nonnegative integer, defined by counting
/// up; zero below zero.
pub open spec fn sqrt_floor(n: int) -> int
    decreases n,
{
    if n <= 0 {
        0
    } else {
        let r = sqrt_floor(n - 1);
        if (r + 1) * (r + 1) <= n {
            r + 1
        } else {
            r
        }
    }
}

/// `sqrt_floor` is bracketed by the neighbouring squares.
pub proof fn lemma_sqrt_floor_sq(n: int)
    requires
        0 <= n,
    ensures
        0 <= sqrt_floor(n),
        sqrt_floor(n) * sqrt_floor(n) <= n,
        n < (sqrt_floor(n) + 1) * (sqrt_floor(n) + 1),
    decreases n,
{
    if n > 0 {
        lemma_sqrt_floor_sq(n - 1);
        let r = sqrt_floor(n - 1);
        if (r + 1) * (r + 1) <= n {
            assert(sqrt_floor(n) == r + 1);
            assert(n < ((r + 1) + 1) * ((r + 1) + 1)) by (nonlinear_arith)
                requires
                    n - 1 < (r + 1) * (r + 1),
                    0 <= r,
            ;
        } else {
            assert(sqrt_floor(n) == r);
        }
    }
}

/// Any nonnegative integer bracketed by the neighbouring squares is the
/// floored root.
pub proof fn lemma_sqrt_unique(n: int, r: int)
    requires
        0 <= r,
        r * r <= n,
        n < (r + 1) * (r + 1),
    ensures
        r == sqrt_floor(n),
{
    assert(0 <= n);
    lemma_sqrt_floor_sq(n);
    let q = sqrt_floor(n);
    assert(r == q) by (nonlinear_arith)
        requires
            0 <= r,
            0 <= q,
            r * r <= n < (r + 1) * (r + 1),
            q * q <= n < (q + 1) * (q + 1),
    ;
}

/// The floored length of the chord from `a` to `b`.
pub open spec fn chord_len(a: Point, b: Point) -> int {
    sqrt_floor(dist2(a, b))
}

/// How far `p` stands from the chord `(a, b)`, in the units the tolerance
/// test uses: the cross-product magnitude for a proper chord, the squared
/// point distance from `a` for a degenerate one.
pub open spec fn deviation(a: Point, b: Point, p: Point) -> int {
    if a == b {
        dist2(a, p)
    } else {
        abs_val(cross(a, b, p))
    }
}

/// The tolerance in the same units: `epsilon` times the chord length, or
/// squared `epsilon` for a degenerate chord.
pub open spec fn tolerance(a: Point, b: Point, eps: int) -> int {
    if a == b {
        eps * eps
    } else {
        eps * chord_len(a, b)
    }
}

/// Index in `[lo, hi]` of the point deviating farthest from the chord
/// `(a, b)`; the earliest of equally far points wins.
pub open spec fn farthest_in(s: Seq<Point>, a: Point, b: Point, lo: int, hi: int) -> int
    decreases hi - lo,
{
    if hi <= lo {
        lo
    } else {
        let k = farthest_in(s, a, b, lo, hi - 1);
        if deviation(a, b, s[hi]) > deviation(a, b, s[k]) {
            hi
        } else {
            k
        }
    }
}

/// The farthest index lies in the scanned range and no scanned point
/// deviates farther.
pub proof fn lemma_farthest_in_range(s: Seq<Point>, a: Point, b: Point, lo: int, hi: int)
    requires
        lo <= hi,
    ensures
        lo <= farthest_in(s, a, b, lo, hi) <= hi,
        forall|t: int|
            lo <= t <= hi ==> deviation(a, b, #[trigger] s[t]) <= deviation(
                a,
                b,
                s[farthest_in(s, a, b, lo, hi)],
            ),
    decreases hi - lo,
{
    if lo < hi {
        lemma_farthest_in_range(s, a, b, lo, hi - 1);
    }
}

/// The indices the Ramer–Douglas–Peucker recursion keeps between `i` and
/// `j` inclusive, in increasing order: both endpoints always; and when the
/// farthest interior point deviates beyond the tolerance, everything the
/// two half-recursions keep.
pub open spec fn rdp_keep(s: Seq<Point>, i: int, j: int, eps: int) -> Seq<int>
    recommends
        0 <= i <= j < s.len(),
    decreases j - i,
    via rdp_keep_decreases
{
    if j <= i {
        seq![i]
    } else if j == i + 1 {
        seq![i, j]
    } else {
        let k = farthest_in(s, s[i], s[j], i + 1, j - 1);
        if deviation(s[i], s[j], s[k]) > tolerance(s[i], s[j], eps) {
            rdp_keep(s, i, k, eps) + rdp_keep(s, k, j, eps).drop_first()
        } else {
            seq![i, j]
        }
    }
}

#[via_fn]
proof fn rdp_keep_decreases(s: Seq<Point>, i: int, j: int, eps: int) {
    if i < j && j != i + 1 {
        lemma_farthest_in_range(s, s[i], s[j], i + 1, j - 1);
    }
}

/// What `simplified` returns: the kept points of a drawing with at least
/// two points, the drawing itself otherwise.
pub open spec fn simplify_spec(s: Seq<Point>, eps: int) -> Seq<Point> {
    if s.len() <= 1 {
        s
    } else {
        rdp_keep(s, 0, s.len() - 1, eps).map_values(|k: int| s[k])
    }
}

/// Exact deviation of `p` from the chord `(a, b)`.
fn deviation_exec(a: Point, b: Point, p: Point) -> (r: i128)
    requires
        in_range(a),
        in_range(b),
        in_range(p),
    ensures
        r == deviation(a, b, p),
{
    if a.x == b.x && a.y == b.y {
        let dx = p.x as i128 - a.x as i128;
        let dy = p.y as i128 - a.y as i128;
        proof {
            let c2: int = 2 * (COORD_LIMIT as int);
            assert(0 <= dx * dx <= c2 * c2 && 0 <= dy * dy <= c2 * c2 && dx * dx + dy * dy <= 2 * (
            c2 * c2)) by (nonlinear_arith)
                requires
                    -c2 <= dx <= c2,
                    -c2 <= dy <= c2,
                    c2 == 2 * (COORD_LIMIT as int),
        ;
        }
        assert(a == b);
        dx * dx + dy * dy
    } else {
        let ux = b.x as i128 - a.x as i128;
        let uy = b.y as i128 - a.y as i128;
        let vx = p.x as i128 - a.x as i128;
        let vy = p.y as i128 - a.y as i128;
        proof {
            let c2: int = 2 * (COORD_LIMIT as int);
            assert(-(c2 * c2) <= ux * vy <= c2 * c2 && -(c2 * c2) <= uy * vx <= c2 * c2)
                by (nonlinear_arith)
                requires
                    -c2 <= ux <= c2,
                    -c2 <= uy <= c2,
                    -c2 <= vx <= c2,
                    -c2 <= vy <= c2,
                    c2 == 2 * (COORD_LIMIT as int),
        ;
        }
        let c = ux * vy - uy * vx;
        assert(!(a == b));
        if c < 0 {
            -c
        } else {
            c
        }
    }
}

/// Exact tolerance for the chord `(a, b)`.
fn tolerance_exec(a: Point, b: Point, eps: i64) -> (r: i128)
    requires
        in_range(a),
        in_range(b),
        0 <= eps,
    ensures
        r == tolerance(a, b, eps as int),
{
    if a.x == b.x && a.y == b.y {
        proof {
            assert((eps as int) * (eps as int) <= (i64::MAX as int) * (i64::MAX as int))
                by (nonlinear_arith)
                requires
                    0 <= eps <= i64::MAX,
        ;
        }
        assert(a == b);
        eps as i128 * eps as i128
    } else {
        let dx = b.x as i128 - a.x as i128;
        let dy = b.y as i128 - a.y as i128;
        proof {
            let c2: int = 2 * (COORD_LIMIT as int);
            assert(0 <= dx * dx <= c2 * c2 && 0 <= dy * dy <= c2 * c2 && dx * dx + dy * dy <= 2 * (
            c2 * c2)) by (nonlinear_arith)
                requires
                    -c2 <= dx <= c2,
                    -c2 <= dy <= c2,
                    c2 == 2 * (COORD_LIMIT as int),
        ;
        }
        let l2 = dx * dx + dy * dy;
        let root = isqrt(l2 as u128);
        proof {
            let c2: int = 2 * (COORD_LIMIT as int);
            lemma_sqrt_unique(l2 as int, root as int);
            assert(root * root <= 2 * (c2 * c2));
            assert(root <= c2 * 2) by (nonlinear_arith)
                requires
                    root * root <= 2 * (c2 * c2),
                    0 <= root,
                    c2 == 2 * (COORD_LIMIT as int),
            ;
            assert((eps as int) * (root as int) <= (i64::MAX as int) * (4 * (COORD_LIMIT as int))
                && 0 <= (eps as int) * (root as int)) by (nonlinear_arith)
                requires
                    0 <= eps <= i64::MAX,
                    0 <= root <= 4 * (COORD_LIMIT as int),
        ;
        }
        assert(!(a == b));
        eps as i128 * root as i128
    }
}

/// The kept indices between `i` and `j`, computed as `rdp_keep` describes.
fn rdp_indices(pts: &Vec<Point>, i: usize, j: usize, eps: i64) -> (r: Vec<usize>)
    requires
        all_in_range(pts@),
        i <= j < pts@.len(),
        0 <= eps,
    ensures
        r@.len() == rdp_keep(pts@, i as int, j as int, eps as int).len(),
        forall|t: int|
            0 <= t < r@.len() ==> #[trigger] r@[t] == rdp_keep(
                pts@,
                i as int,
                j as int,
                eps as int,
            )[t],
    decreases j - i,
{
    let ghost s = pts@;
    if j <= i {
        let r = vec![i];
        assert(r@ =~= seq![i]);
        return r;
    }
    if j == i + 1 {
        let r = vec![i, j];
        return r;
    }
    let a = pts[i];
    let b = pts[j];
    proof {
        assert(in_range(s[i as int]) && in_range(s[j as int]));
    }
    let mut k: usize = i + 1;
    let mut best: i128 = deviation_exec(a, b, pts[i + 1]);
    let mut t: usize = i + 2;
    while t <= j - 1
        invariant
            all_in_range(s),
            pts@ == s,
            i + 1 <= k < t <= j,
            i + 2 <= t,
            j < s.len(),
            a == s[i as int],
            b == s[j as int],
            k == farthest_in(s, a, b, i + 1, t - 1),
            best == deviation(a, b, s[k as int]),
        decreases j - t,
    {
        proof {
            assert(in_range(s[t as int]));
        }
        let d = deviation_exec(a, b, pts[t]);
        if d > best {
            k = t;
            best = d;
        }
        t = t + 1;
    }
    proof {
        assert(k == farthest_in(s, a, b, i + 1, j - 1));
    }
    let tol = tolerance_exec(a, b, eps);
    if best > tol {
        let mut left = rdp_indices(pts, i, k, eps);
        let right = rdp_indices(pts, k, j, eps);
        let ghost left_spec = rdp_keep(s, i as int, k as int, eps as int);
        let ghost right_spec = rdp_keep(s, k as int, j as int, eps as int);
        proof {
            lemma_rdp_keep_shape(s, i as int, k as int, eps as int);
            lemma_rdp_keep_shape(s, k as int, j as int, eps as int);
        }
        let mut u: usize = 1;
        while u < right.len()
            invariant
                right@.len() == right_spec.len(),
                forall|t2: int| 0 <= t2 < right@.len() ==> #[trigger] right@[t2] == right_spec[t2],
                1 <= u <= right@.len(),
                left@.len() == left_spec.len() + u - 1,
                forall|t2: int|
                    0 <= t2 < left_spec.len() ==> #[trigger] left@[t2] == (left_spec
                        + right_spec.drop_first())[t2],
                forall|t2: int|
                    left_spec.len() <= t2 < left@.len() ==> #[trigger] left@[t2] == (left_spec
                        + right_spec.drop_first())[t2],
            decreases right@.len() - u,
        {
            left.push(right[u]);
            u = u + 1;
        }
        proof {
            assert(left@.len() == (left_spec + right_spec.drop_first()).len());
        }
        left
    } else {
        let r = vec![i, j];
        r
    }
}

impl GestureDrawing {
    /// Simplifies the drawing with the Ramer–Douglas–Peucker algorithm at
    /// perpendicular-distance tolerance `eps` (in fixed-point coordinate
    /// units): a new drawing holding only the kept points, in original
    /// order. A drawing of fewer than two points is returned unchanged.
    pub fn simplified(&self, eps: i64) -> (r: GestureDrawing)
        requires
            all_in_range(self@),
            0 <= eps,
        ensures
            r@ == simplify_spec(self@, eps as int),
    {
        let ghost s = self@;
        let n = self.len();
        if n <= 1 {
            let r = self.copy();
            return r;
        }
        let pts = self.to_points();
        let idx = rdp_indices(&pts, 0, n - 1, eps);
        let ghost keep = rdp_keep(s, 0, n as int - 1, eps as int);
        proof {
            lemma_rdp_keep_shape(s, 0, n as int - 1, eps as int);
        }
        let mut out: Vec<Point> = Vec::new();
        let mut u: usize = 0;
        while u < idx.len()
            invariant
                pts@ == s,
                idx@.len() == keep.len(),
                forall|t: int| 0 <= t < idx@.len() ==> #[trigger] idx@[t] == keep[t],
                forall|t: int| 0 <= t < keep.len() ==> 0 <= #[trigger] keep[t] < s.len(),
                u <= idx@.len(),
                out@.len() == u,
                forall|t: int| 0 <= t < u ==> #[trigger] out@[t] == s[keep[t]],
            decreases idx@.len() - u,
        {
            let ki = idx[u];
            out.push(pts[ki]);
            u = u + 1;
        }
        proof {
            assert(out@ =~= keep.map_values(|k: int| s[k]));
        }
        GestureDrawing::from_points(out)
    }
}

/// A strictly increasing integer sequence bounded below by `i` grows at
/// least one per step.
proof fn lemma_sorted_lower(r: Seq<int>, i: int, p: int)
    requires
        0 <= p < r.len(),
        forall|a: int, b: int| 0 <= a < b < r.len() ==> r[a] < r[b],
        forall|t: int| 0 <= t < r.len() ==> i <= #[trigger] r[t],
    ensures
        r[p] >= i + p,
    decreases p,
{
    if p > 0 {
        lemma_sorted_lower(r, i, p - 1);
        assert(r[p - 1] < r[p]);
    }
}

/// Simplification shape law: the result never has more points than the
/// input, and a nonempty input keeps its first and last point.
pub proof fn lemma_simplify_shape(s: Seq<Point>, eps: int)
    ensures
        simplify_spec(s, eps).len() <= s.len(),
        s.len() >= 1 ==> simplify_spec(s, eps).len() >= 1 && simplify_spec(s, eps).first()
            == s.first() && simplify_spec(s, eps).last() == s.last(),
        s.len() >= 2 ==> simplify_spec(s, eps).len() >= 2,
{
    if s.len() > 1 {
        let keep = rdp_keep(s, 0, s.len() - 1, eps);
        lemma_rdp_keep_shape(s, 0, s.len() - 1, eps);
        lemma_sorted_lower(keep, 0, keep.len() - 1);
        assert(keep.last() == s.len() - 1);
        assert(keep.len() <= s.len());
        let r = simplify_spec(s, eps);
        assert(r.len() == keep.len());
        assert(r.first() == s[keep.first()]);
        assert(r.last() == s[keep.last()]);
    }
}

/// A larger tolerance is never smaller in the comparison units.
proof fn lemma_tolerance_monotone(a: Point, b: Point, e1: int, e2: int)
    requires
        0 <= e1 <= e2,
    ensures
        tolerance(a, b, e1) <= tolerance(a, b, e2),
{
    if a == b {
        assert(e1 * e1 <= e2 * e2) by (nonlinear_arith)
            requires
                0 <= e1 <= e2,
        ;
    } else {
        assert(0 <= dist2(a, b)) by (nonlinear_arith);
        lemma_sqrt_floor_sq(dist2(a, b));
        assert(e1 * chord_len(a, b) <= e2 * chord_len(a, b)) by (nonlinear_arith)
            requires
                0 <= e1 <= e2,
                0 <= chord_len(a, b),
        ;
    }
}

/// Raising the tolerance never brings an index back: everything kept at
/// the larger tolerance was already kept at the smaller one.
pub proof fn lemma_rdp_keep_monotone(s: Seq<Point>, i: int, j: int, e1: int, e2: int)
    requires
        0 <= i <= j < s.len(),
        0 <= e1 <= e2,
    ensures
        forall|x: int|
            rdp_keep(s, i, j, e2).contains(x) ==> #[trigger] rdp_keep(s, i, j, e1).contains(x),
    decreases j - i,
{
    let r1 = rdp_keep(s, i, j, e1);
    let r2 = rdp_keep(s, i, j, e2);
    if j <= i || j == i + 1 {
        assert(r1 == r2);
    } else {
        let k = farthest_in(s, s[i], s[j], i + 1, j - 1);
        lemma_farthest_in_range(s, s[i], s[j], i + 1, j - 1);
        lemma_tolerance_monotone(s[i], s[j], e1, e2);
        let dev = deviation(s[i], s[j], s[k]);
        lemma_rdp_keep_shape(s, i, j, e1);
        if dev > tolerance(s[i], s[j], e2) {
            assert(dev > tolerance(s[i], s[j], e1));
            lemma_rdp_keep_monotone(s, i, k, e1, e2);
            lemma_rdp_keep_monotone(s, k, j, e1, e2);
            let l1 = rdp_keep(s, i, k, e1);
            let l2 = rdp_keep(s, i, k, e2);
            let q1 = rdp_keep(s, k, j, e1);
            let q2 = rdp_keep(s, k, j, e2);
            lemma_rdp_keep_shape(s, i, k, e1);
            lemma_rdp_keep_shape(s, k, j, e1);
            lemma_rdp_keep_shape(s, i, k, e2);
            lemma_rdp_keep_shape(s, k, j, e2);
            assert(r1 == l1 + q1.drop_first());
            assert(r2 == l2 + q2.drop_first());
            assert forall|x: int| r2.contains(x) implies #[trigger] r1.contains(x) by {
                let idx = choose|idx: int| 0 <= idx < r2.len() && r2[idx] == x;
                if idx < l2.len() {
                    assert(l2[idx] == x);
                    assert(l2.contains(x));
                    assert(l1.contains(x));
                    let w = choose|w: int| 0 <= w < l1.len() && l1[w] == x;
                    assert(r1[w] == x);
                } else {
                    let d = idx - l2.len();
                    assert(0 <= d < q2.len() - 1);
                    assert(q2.drop_first()[d] == x);
                    assert(q2[d + 1] == x);
                    assert(q2.contains(x));
                    assert(q1.contains(x));
                    let w = choose|w: int| 0 <= w < q1.len() && q1[w] == x;
                    if w == 0 {
                        assert(q1[0] == k);
                        assert(l1.last() == k);
                        assert(r1[l1.len() - 1] == k);
                    } else {
                        assert(q1.drop_first()[w - 1] == x);
                        assert(r1[l1.len() + w - 1] == x);
                    }
                }
            }
        } else {
            assert(r2 =~= seq![i, j]);
            assert(r1.first() == i && r1.last() == j);
            assert forall|x: int| r2.contains(x) implies #[trigger] r1.contains(x) by {
                let idx = choose|idx: int| 0 <= idx < r2.len() && r2[idx] == x;
                assert(x == i || x == j);
                assert(r1[0] == i);
                assert(r1[r1.len() - 1] == j);
            }
        }
    }
}

/// Tolerance monotonicity law: simplifying at a larger tolerance never
/// keeps more points than simplifying at a smaller one.
pub proof fn lemma_simplify_monotone_len(s: Seq<Point>, e1: int, e2: int)
    requires
        0 <= e1 <= e2,
    ensures
        simplify_spec(s, e2).len() <= simplify_spec(s, e1).len(),
{
    broadcast use vstd::seq_lib::seq_to_set_is_finite;

    if s.len() > 1 {
        let r1 = rdp_keep(s, 0, s.len() - 1, e1);
        let r2 = rdp_keep(s, 0, s.len() - 1, e2);
        lemma_rdp_keep_shape(s, 0, s.len() - 1, e1);
        lemma_rdp_keep_shape(s, 0, s.len() - 1, e2);
        lemma_rdp_keep_monotone(s, 0, s.len() - 1, e1, e2);
        assert forall|p: int, q: int|
            0 <= p < r1.len() && 0 <= q < r1.len() && p != q implies r1[p] != r1[q] by {
            if p < q {
            } else {
            }
        }
        assert forall|p: int, q: int|
            0 <= p < r2.len() && 0 <= q < r2.len() && p != q implies r2[p] != r2[q] by {
            if p < q {
            } else {
            }
        }
        assert(r1.no_duplicates());
        assert(r2.no_duplicates());
        r1.unique_seq_to_set();
        r2.unique_seq_to_set();
        assert(r2.to_set() <= r1.to_set()) by {
            assert(forall|x: int|
                #[trigger] r2.to_set().contains(x) ==> r1.to_set().contains(x));
        }
        vstd::set_lib::lemma_len_subset(r2.to_set(), r1.to_set());
    }
}

/// Zero-tolerance law, on drawings in general position: when no point is
/// exactly collinear with any two others around it, a zero tolerance keeps
/// every index between the endpoints.
pub proof fn lemma_rdp_keep_zero(s: Seq<Point>, i: int, j: int)
    requires
        0 <= i <= j < s.len(),
        forall|a: int, m: int, b: int|
            i <= a < m < b <= j ==> #[trigger] cross(s[a], s[b], s[m]) != 0,
    ensures
        rdp_keep(s, i, j, 0) =~= Seq::new((j - i + 1) as nat, |t: int| i + t),
    decreases j - i,
{
    let full = Seq::new((j - i + 1) as nat, |t: int| i + t);
    if j <= i {
        assert(rdp_keep(s, i, j, 0) =~= full);
    } else if j == i + 1 {
        assert(rdp_keep(s, i, j, 0) =~= full);
    } else {
        let k = farthest_in(s, s[i], s[j], i + 1, j - 1);
        lemma_farthest_in_range(s, s[i], s[j], i + 1, j - 1);
        assert(cross(s[i], s[j], s[k]) != 0);
        assert(s[i] != s[j]) by {
            if s[i] == s[j] {
                assert(cross(s[i], s[j], s[k]) == 0) by (nonlinear_arith)
                    requires
                        s[i] == s[j],
                ;
            }
        }
        assert(deviation(s[i], s[j], s[k]) == abs_val(cross(s[i], s[j], s[k])));
        assert(deviation(s[i], s[j], s[k]) >= 1);
        assert(tolerance(s[i], s[j], 0) == 0);
        lemma_rdp_keep_zero(s, i, k);
        lemma_rdp_keep_zero(s, k, j);
        let left = rdp_keep(s, i, k, 0);
        let right = rdp_keep(s, k, j, 0);
        assert(rdp_keep(s, i, j, 0) == left + right.drop_first());
        assert forall|t: int| 0 <= t < j - i + 1 implies (left + right.drop_first())[t] == i
            + t by {
            if t < left.len() {
                assert(left[t] == i + t);
            } else {
                let d = t - left.len();
                assert(right.drop_first()[d] == right[d + 1]);
                assert(right[d + 1] == k + d + 1);
            }
        }
        assert(rdp_keep(s, i, j, 0) =~= full);
    }
}

/// Zero-tolerance simplification is the identity on drawings in general
/// position: with no exactly-collinear triple, `simplified(0)` returns the
/// drawing unchanged.
pub proof fn lemma_simplify_zero_identity(s: Seq<Point>)
    requires
        forall|a: int, m: int, b: int|
            0 <= a < m < b < s.len() ==> #[trigger] cross(s[a], s[b], s[m]) != 0,
    ensures
        simplify_spec(s, 0) == s,
{
    if s.len() <= 1 {
    } else {
        lemma_rdp_keep_zero(s, 0, s.len() - 1);
        let keep = rdp_keep(s, 0, s.len() - 1, 0);
        assert(simplify_spec(s, 0) =~= s) by {
            assert(forall|t: int| 0 <= t < keep.len() ==> #[trigger] keep[t] == t);
            assert(keep.len() == s.len());
        }
    }
}

/// Shape of the kept-index sequence: it begins with `i`, ends with `j`,
/// stays inside `[i, j]`, and is strictly increasing — so the kept points
/// keep their order, no point appears twice, first and last survive, and
/// there are never more kept indices than points.
pub proof fn lemma_rdp_keep_shape(s: Seq<Point>, i: int, j: int, eps: int)
    requires
        0 <= i <= j < s.len(),
    ensures
        rdp_keep(s, i, j, eps).len() >= 1,
        rdp_keep(s, i, j, eps).first() == i,
        rdp_keep(s, i, j, eps).last() == j,
        forall|t: int|
            0 <= t < rdp_keep(s, i, j, eps).len() ==> i <= #[trigger] rdp_keep(s, i, j, eps)[t]
                <= j,
        forall|p: int, q: int|
            0 <= p < q < rdp_keep(s, i, j, eps).len() ==> #[trigger] rdp_keep(s, i, j, eps)[p]
                < #[trigger] rdp_keep(s, i, j, eps)[q],
        i < j ==> rdp_keep(s, i, j, eps).len() >= 2,
    decreases j - i,
{
    let r = rdp_keep(s, i, j, eps);
    if j <= i {
        assert(r =~= seq![i]);
    } else if j == i + 1 {
        assert(r =~= seq![i, j]);
    } else {
        let k = farthest_in(s, s[i], s[j], i + 1, j - 1);
        lemma_farthest_in_range(s, s[i], s[j], i + 1, j - 1);
        if deviation(s[i], s[j], s[k]) > tolerance(s[i], s[j], eps) {
            let left = rdp_keep(s, i, k, eps);
            let right = rdp_keep(s, k, j, eps);
            lemma_rdp_keep_shape(s, i, k, eps);
            lemma_rdp_keep_shape(s, k, j, eps);
            assert(r == left + right.drop_first());
            assert(forall|t: int|
                0 <= t < right.drop_first().len() ==> #[trigger] right.drop_first()[t] == right[t
                    + 1]);
            assert(r.last() == right.drop_first().last());
        } else {
            assert(r =~= seq![i, j]);
        }
    }
}

} // verus!

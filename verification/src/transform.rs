//! The geometry transform engine: pure per-point maps producing a new
//! drawing of equal length and order — scale normalization, translation,
//! horizontal reflection about the bounding-box centre, and rotation about
//! the bounding-box centre by a fixed-point unit vector.
//!
//! All formulas are exact integer arithmetic; every division is the
//! mathematical floor division of the contract language.

use crate::drawing::GestureDrawing;
use crate::geom::{
    all_in_range, lemma_bbox_contains, lemma_bbox_in_range, lemma_div_range, max_x, max_y, min_x,
    min_y, Point, COORD_LIMIT, SCALE, SIZE_FLOOR,
};
use vstd::prelude::*;

verus! {

/// Width of the bounding box.
pub open spec fn dim_x(s: Seq<Point>) -> int {
    max_x(s) - min_x(s)
}

/// Height of the bounding box.
pub open spec fn dim_y(s: Seq<Point>) -> int {
    max_y(s) - min_y(s)
}

/// The scale basis of normalization: the longer bounding-box axis, floored
/// at `SIZE_FLOOR` so a degenerate (empty or single-point) drawing never
/// divides by zero.
pub open spec fn size_basis(s: Seq<Point>) -> int {
    let d = if dim_x(s) > dim_y(s) {
        dim_x(s)
    } else {
        dim_y(s)
    };
    if d < SIZE_FLOOR {
        SIZE_FLOOR as int
    } else {
        d
    }
}

/// x of the bounding-box centre (floored halving).
pub open spec fn center_x(s: Seq<Point>) -> int {
    (min_x(s) + max_x(s)) / 2
}

/// y of the bounding-box centre (floored halving).
pub open spec fn center_y(s: Seq<Point>) -> int {
    (min_y(s) + max_y(s)) / 2
}

/// x of the corner the normalization maps to the origin: the centre moved
/// back by half the scale basis.
pub open spec fn origin_x(s: Seq<Point>) -> int {
    center_x(s) - size_basis(s) / 2
}

/// y of that corner.
pub open spec fn origin_y(s: Seq<Point>) -> int {
    center_y(s) - size_basis(s) / 2
}

/// One normalized coordinate: `(v - origin) * size / basis`.
pub open spec fn normalized_coord(v: int, origin: int, basis: int, size: int) -> int {
    (v - origin) * size / basis
}

/// One reflected x coordinate: `v` mirrored across the vertical line through
/// the bounding-box centre, `2 * centre - v` written without the halving so
/// it stays exact.
pub open spec fn reflected_x(s: Seq<Point>, v: int) -> int {
    min_x(s) + max_x(s) - v
}

/// One rotated x coordinate: the point taken relative to the bounding-box
/// centre, turned by the fixed-point unit vector `(cos_t, sin_t)` and moved
/// back. With y growing downward the turn is visually clockwise.
pub open spec fn rotated_x(s: Seq<Point>, cos_t: int, sin_t: int, p: Point) -> int {
    center_x(s) + ((p.x - center_x(s)) * cos_t - (p.y - center_y(s)) * sin_t) / (SCALE as int)
}

/// One rotated y coordinate.
pub open spec fn rotated_y(s: Seq<Point>, cos_t: int, sin_t: int, p: Point) -> int {
    center_y(s) + ((p.y - center_y(s)) * cos_t + (p.x - center_x(s)) * sin_t) / (SCALE as int)
}

/// The normalized offset `v - origin` lies in `[0, basis]` whenever `v` lies
/// in the bounding box of its axis and the basis covers that axis; the
/// normalized coordinate then lies in `[0, size]`.
pub proof fn lemma_normalized_coord_bounds(mn: int, mx: int, m: int, size: int, v: int)
    requires
        mn <= v <= mx,
        mx - mn <= m,
        1 <= m,
        0 <= size,
    ensures
        0 <= v - ((mn + mx) / 2 - m / 2) <= m,
        0 <= normalized_coord(v, (mn + mx) / 2 - m / 2, m, size) <= size,
{
    let half_sum = (mn + mx) / 2;
    let half_m = m / 2;
    let o = half_sum - half_m;
    vstd::arithmetic::div_mod::lemma_fundamental_div_mod(mn + mx, 2);
    vstd::arithmetic::div_mod::lemma_fundamental_div_mod(m, 2);
    assert(2 * half_sum <= mn + mx <= 2 * half_sum + 1);
    assert(2 * half_m <= m <= 2 * half_m + 1);
    assert(0 <= v - o <= m);
    let d = v - o;
    assert(d * size <= m * size && 0 <= d * size) by (nonlinear_arith)
        requires
            0 <= d <= m,
            0 <= size,
    ;
    vstd::arithmetic::div_mod::lemma_div_is_ordered(0, d * size, m);
    vstd::arithmetic::div_mod::lemma_div_is_ordered(d * size, m * size, m);
    vstd::arithmetic::div_mod::lemma_div_multiples_vanish(size, m);
    assert(m * size == size * m) by (nonlinear_arith);
    vstd::arithmetic::div_mod::lemma_div_of0(m);
}

/// Translation round-trip law: translating by `(dx, dy)` and then by the
/// negated offsets returns the original sequence exactly.
pub proof fn lemma_translate_round_trip(
    s: Seq<Point>,
    t: Seq<Point>,
    u: Seq<Point>,
    dx: int,
    dy: int,
)
    requires
        t.len() == s.len(),
        u.len() == t.len(),
        forall|i: int|
            #![trigger t[i]]
            0 <= i < s.len() ==> t[i].x == s[i].x + dx && t[i].y == s[i].y + dy,
        forall|i: int|
            #![trigger u[i]]
            0 <= i < t.len() ==> u[i].x == t[i].x + (-dx) && u[i].y == t[i].y + (-dy),
    ensures
        u == s,
{
    assert(forall|i: int| 0 <= i < s.len() ==> #[trigger] u[i] == s[i]) by {
        assert(forall|i: int|
            0 <= i < s.len() ==> #[trigger] u[i].x == s[i].x && u[i].y == s[i].y);
    }
    assert(u =~= s);
}

/// Reflecting across a fixed vertical line `x = k/2` mirrors the horizontal
/// bounding-box fold and leaves the vertical one alone.
proof fn lemma_reflect_fold(s: Seq<Point>, t: Seq<Point>, k: int)
    requires
        t.len() == s.len(),
        s.len() > 0,
        forall|i: int|
            #![trigger t[i]]
            0 <= i < s.len() ==> t[i].x == k - s[i].x && t[i].y == s[i].y,
    ensures
        min_x(t) == k - max_x(s),
        max_x(t) == k - min_x(s),
        min_y(t) == min_y(s),
        max_y(t) == max_y(s),
    decreases s.len(),
{
    reveal_with_fuel(min_x, 2);
    reveal_with_fuel(min_y, 2);
    reveal_with_fuel(max_x, 2);
    reveal_with_fuel(max_y, 2);
    assert(t.last() == t[s.len() - 1]);
    assert(s.last() == s[s.len() - 1]);
    if s.len() > 1 {
        assert(t.drop_last().len() == s.drop_last().len());
        assert(forall|i: int|
            0 <= i < s.drop_last().len() ==> #[trigger] t.drop_last()[i] == t[i]
                && s.drop_last()[i] == s[i]);
        lemma_reflect_fold(s.drop_last(), t.drop_last(), k);
    }
}

/// Reflection involution law: reflecting a drawing across the vertical line
/// through its bounding-box centre, and reflecting the result again, returns
/// the original sequence exactly.
pub proof fn lemma_reflect_involution(s: Seq<Point>, t: Seq<Point>, u: Seq<Point>)
    requires
        t.len() == s.len(),
        u.len() == t.len(),
        forall|i: int|
            #![trigger t[i]]
            0 <= i < s.len() ==> t[i].x == reflected_x(s, s[i].x as int) && t[i].y == s[i].y,
        forall|i: int|
            #![trigger u[i]]
            0 <= i < t.len() ==> u[i].x == reflected_x(t, t[i].x as int) && u[i].y == t[i].y,
    ensures
        u == s,
{
    if s.len() > 0 {
        let k = min_x(s) + max_x(s);
        lemma_reflect_fold(s, t, k);
        assert(min_x(t) + max_x(t) == k);
    }
    assert(forall|i: int| 0 <= i < s.len() ==> #[trigger] u[i] == s[i]) by {
        assert(forall|i: int|
            0 <= i < s.len() ==> #[trigger] u[i].x == s[i].x && u[i].y == s[i].y);
    }
    assert(u =~= s);
}

/// A monotone map applied pointwise to the x coordinates maps the
/// horizontal bounding-box fold through itself.
proof fn lemma_monotone_fold_x(s: Seq<Point>, t: Seq<Point>, f: spec_fn(int) -> int)
    requires
        t.len() == s.len(),
        s.len() > 0,
        forall|i: int| #![trigger t[i]] 0 <= i < s.len() ==> t[i].x == f(s[i].x as int),
        forall|a: int, b: int| #![trigger f(a), f(b)] a <= b ==> f(a) <= f(b),
    ensures
        min_x(t) == f(min_x(s)),
        max_x(t) == f(max_x(s)),
    decreases s.len(),
{
    reveal_with_fuel(min_x, 2);
    reveal_with_fuel(max_x, 2);
    assert(t.last() == t[s.len() - 1]);
    assert(s.last() == s[s.len() - 1]);
    if s.len() > 1 {
        assert(t.drop_last().len() == s.drop_last().len());
        assert(forall|i: int|
            0 <= i < s.drop_last().len() ==> #[trigger] t.drop_last()[i] == t[i]
                && s.drop_last()[i] == s[i]);
        lemma_monotone_fold_x(s.drop_last(), t.drop_last(), f);
    }
}

/// The same for the y coordinates and the vertical fold.
proof fn lemma_monotone_fold_y(s: Seq<Point>, t: Seq<Point>, f: spec_fn(int) -> int)
    requires
        t.len() == s.len(),
        s.len() > 0,
        forall|i: int| #![trigger t[i]] 0 <= i < s.len() ==> t[i].y == f(s[i].y as int),
        forall|a: int, b: int| #![trigger f(a), f(b)] a <= b ==> f(a) <= f(b),
    ensures
        min_y(t) == f(min_y(s)),
        max_y(t) == f(max_y(s)),
    decreases s.len(),
{
    reveal_with_fuel(min_y, 2);
    reveal_with_fuel(max_y, 2);
    assert(t.last() == t[s.len() - 1]);
    assert(s.last() == s[s.len() - 1]);
    if s.len() > 1 {
        assert(t.drop_last().len() == s.drop_last().len());
        assert(forall|i: int|
            0 <= i < s.drop_last().len() ==> #[trigger] t.drop_last()[i] == t[i]
                && s.drop_last()[i] == s[i]);
        lemma_monotone_fold_y(s.drop_last(), t.drop_last(), f);
    }
}

/// The normalization map of one axis is monotone.
proof fn lemma_normalized_coord_monotone(o: int, m: int, size: int)
    requires
        1 <= m,
        0 <= size,
    ensures
        forall|a: int, b: int|
            #![trigger normalized_coord(a, o, m, size), normalized_coord(b, o, m, size)]
            a <= b ==> normalized_coord(a, o, m, size) <= normalized_coord(b, o, m, size),
{
    assert forall|a: int, b: int| a <= b implies #[trigger] normalized_coord(a, o, m, size)
        <= #[trigger] normalized_coord(b, o, m, size) by {
        assert((a - o) * size <= (b - o) * size) by (nonlinear_arith)
            requires
                a <= b,
                0 <= size,
        ;
        vstd::arithmetic::div_mod::lemma_div_is_ordered((a - o) * size, (b - o) * size, m);
    }
}

/// The offset of an axis minimum from the normalization origin, doubled,
/// lies within one of `basis - dim` of that axis.
proof fn lemma_origin_offset(mn: int, mx: int, m: int)
    requires
        mx - mn <= m,
        1 <= m,
    ensures
        m - (mx - mn) - 1 <= 2 * (mn - ((mn + mx) / 2 - m / 2)) <= m - (mx - mn) + 1,
{
    vstd::arithmetic::div_mod::lemma_fundamental_div_mod(mn + mx, 2);
    vstd::arithmetic::div_mod::lemma_fundamental_div_mod(m, 2);
}

/// Normalization bounding-box law. For a nonempty drawing whose longer
/// bounding-box axis is wide enough to reach the scale floor, the
/// normalized image spans exactly `[0, size]` along that longer axis, stays
/// inside `[0, size]` along the shorter one, and is centred there up to
/// rounding: the sum of the shorter axis' extremes, scaled by the basis
/// `m`, differs from `m * size` by at most `size + 2 * m`.
pub proof fn lemma_normalized_bounding_box(s: Seq<Point>, t: Seq<Point>, size: int)
    requires
        all_in_range(s),
        s.len() > 0,
        0 <= size <= COORD_LIMIT,
        t.len() == s.len(),
        forall|i: int|
            #![trigger t[i]]
            0 <= i < s.len() ==> t[i].x == normalized_coord(
                s[i].x as int,
                origin_x(s),
                size_basis(s),
                size,
            ) && t[i].y == normalized_coord(s[i].y as int, origin_y(s), size_basis(s), size),
        SIZE_FLOOR <= if dim_x(s) > dim_y(s) {
            dim_x(s)
        } else {
            dim_y(s)
        },
    ensures
        dim_x(s) >= dim_y(s) ==> min_x(t) == 0 && max_x(t) == size,
        dim_y(s) >= dim_x(s) ==> min_y(t) == 0 && max_y(t) == size,
        0 <= min_x(t) && max_x(t) <= size && 0 <= min_y(t) && max_y(t) <= size,
        dim_x(s) > dim_y(s) ==> -(size + 2 * size_basis(s)) <= size_basis(s) * (min_y(t) + max_y(t)
            - size) <= size,
        dim_y(s) > dim_x(s) ==> -(size + 2 * size_basis(s)) <= size_basis(s) * (min_x(t) + max_x(t)
            - size) <= size,
{
    let m = size_basis(s);
    let ox = origin_x(s);
    let oy = origin_y(s);
    lemma_bbox_in_range(s);
    lemma_normalized_coord_monotone(ox, m, size);
    lemma_normalized_coord_monotone(oy, m, size);
    lemma_monotone_fold_x(s, t, |v: int| normalized_coord(v, ox, m, size));
    lemma_monotone_fold_y(s, t, |v: int| normalized_coord(v, oy, m, size));
    lemma_normalized_coord_bounds(min_x(s), max_x(s), m, size, min_x(s));
    lemma_normalized_coord_bounds(min_x(s), max_x(s), m, size, max_x(s));
    lemma_normalized_coord_bounds(min_y(s), max_y(s), m, size, min_y(s));
    lemma_normalized_coord_bounds(min_y(s), max_y(s), m, size, max_y(s));
    lemma_axis_span(min_x(s), max_x(s), m, size);
    lemma_axis_span(min_y(s), max_y(s), m, size);
}

/// One axis of the normalization, in full: with offsets `a = mn - o` and
/// `b = mx - o`, the mapped extremes are exactly `0` and `size` when the
/// axis spans the whole basis, and their sum times the basis stays within
/// `size + 2 * m` of `m * size` otherwise.
proof fn lemma_axis_span(mn: int, mx: int, m: int, size: int)
    requires
        mx - mn <= m,
        1 <= m,
        0 <= size,
    ensures
        mx - mn == m ==> normalized_coord(mn, (mn + mx) / 2 - m / 2, m, size) == 0
            && normalized_coord(mx, (mn + mx) / 2 - m / 2, m, size) == size,
        -(size + 2 * m) <= m * (normalized_coord(mn, (mn + mx) / 2 - m / 2, m, size)
            + normalized_coord(mx, (mn + mx) / 2 - m / 2, m, size) - size) <= size,
{
    let o = (mn + mx) / 2 - m / 2;
    let a = mn - o;
    let b = mx - o;
    let dim = mx - mn;
    lemma_origin_offset(mn, mx, m);
    assert(m - dim - 1 <= 2 * a <= m - dim + 1);
    assert(b == a + dim);
    let q1 = (a * size) / m;
    let r1 = (a * size) % m;
    let q2 = (b * size) / m;
    let r2 = (b * size) % m;
    vstd::arithmetic::div_mod::lemma_fundamental_div_mod(a * size, m);
    vstd::arithmetic::div_mod::lemma_fundamental_div_mod(b * size, m);
    if dim == m {
        assert(2 * a == 0);
        assert(a == 0);
        vstd::arithmetic::div_mod::lemma_div_of0(m);
        assert(normalized_coord(mn, o, m, size) == 0);
        vstd::arithmetic::div_mod::lemma_div_multiples_vanish(size, m);
        assert(m * size == size * m) by (nonlinear_arith);
        assert(normalized_coord(mx, o, m, size) == size);
    }
    assert((m - 1) * size <= a * size + b * size <= (m + 1) * size) by (nonlinear_arith)
        requires
            m - 1 <= a + b <= m + 1,
            0 <= size,
    ;
    assert(m * (q1 + q2) == a * size + b * size - r1 - r2) by (nonlinear_arith)
        requires
            a * size == m * q1 + r1,
            b * size == m * q2 + r2,
    ;
    assert(-(size + 2 * m) <= m * (q1 + q2 - size) <= size) by (nonlinear_arith)
        requires
            m * (q1 + q2) == a * size + b * size - r1 - r2,
            (m - 1) * size <= a * size + b * size <= (m + 1) * size,
            0 <= r1 < m,
            0 <= r2 < m,
            1 <= m,
            0 <= size,
    ;
}

/// Rotation inversion law, at the level of the exact (undivided) fixed-point
/// arithmetic: turning an offset `(dx, dy)` by the unit vector `(c, t)` and
/// turning the result back by `(c, -t)` scales the offset by exactly
/// `SCALE * SCALE` — the two turns cancel.
pub proof fn lemma_rotation_inverse(dx: int, dy: int, c: int, t: int)
    requires
        c * c + t * t == (SCALE as int) * (SCALE as int),
    ensures
        (dx * c - dy * t) * c + (dy * c + dx * t) * t == dx * ((SCALE as int) * (SCALE as int)),
        (dy * c + dx * t) * c - (dx * c - dy * t) * t == dy * ((SCALE as int) * (SCALE as int)),
{
    assert((dx * c - dy * t) * c + (dy * c + dx * t) * t == dx * (c * c + t * t))
        by (nonlinear_arith);
    assert((dy * c + dx * t) * c - (dx * c - dy * t) * t == dy * (c * c + t * t))
        by (nonlinear_arith);
}

/// Rotation round-trip bound, one offset at a time: turning an offset by
/// the unit vector `(c, t)` with the floored fixed-point divisions the
/// transform uses, and turning the result back by `(c, -t)`, lands within
/// two fixed-point units of the start on each axis.
pub proof fn lemma_rotate_back_close(dx: int, dy: int, c: int, t: int)
    requires
        c * c + t * t == (SCALE as int) * (SCALE as int),
        -SCALE <= c <= SCALE,
        -SCALE <= t <= SCALE,
    ensures
        ({
            let sc = SCALE as int;
            let x1 = (dx * c - dy * t) / sc;
            let y1 = (dy * c + dx * t) / sc;
            let x2 = (x1 * c + y1 * t) / sc;
            let y2 = (y1 * c - x1 * t) / sc;
            dx - 2 <= x2 <= dx + 2 && dy - 2 <= y2 <= dy + 2
        }),
{
    let sc = SCALE as int;
    let x1 = (dx * c - dy * t) / sc;
    let r1 = (dx * c - dy * t) % sc;
    let y1 = (dy * c + dx * t) / sc;
    let r2 = (dy * c + dx * t) % sc;
    vstd::arithmetic::div_mod::lemma_fundamental_div_mod(dx * c - dy * t, sc);
    vstd::arithmetic::div_mod::lemma_fundamental_div_mod(dy * c + dx * t, sc);
    assert(sc * x1 + r1 == dx * c - dy * t);
    assert(sc * y1 + r2 == dy * c + dx * t);
    let nx = x1 * c + y1 * t;
    let ny = y1 * c - x1 * t;
    let e1 = dx * c - dy * t - r1;
    let e2 = dy * c + dx * t - r2;
    assert(e1 == sc * x1);
    assert(e2 == sc * y1);
    assert(sc * nx == e1 * c + e2 * t) by (nonlinear_arith)
        requires
            nx == x1 * c + y1 * t,
            e1 == sc * x1,
            e2 == sc * y1,
    ;
    assert(e1 * c + e2 * t == dx * (sc * sc) - (r1 * c + r2 * t)) by (nonlinear_arith)
        requires
            e1 == dx * c - dy * t - r1,
            e2 == dy * c + dx * t - r2,
            c * c + t * t == sc * sc,
    ;
    assert(sc * ny == e2 * c - e1 * t) by (nonlinear_arith)
        requires
            ny == y1 * c - x1 * t,
            e1 == sc * x1,
            e2 == sc * y1,
    ;
    assert(e2 * c - e1 * t == dy * (sc * sc) - (r2 * c - r1 * t)) by (nonlinear_arith)
        requires
            e1 == dx * c - dy * t - r1,
            e2 == dy * c + dx * t - r2,
            c * c + t * t == sc * sc,
    ;
    assert(-(2 * (sc * sc)) <= r1 * c + r2 * t <= 2 * (sc * sc) && -(2 * (sc * sc)) <= r2 * c - r1
        * t <= 2 * (sc * sc)) by (nonlinear_arith)
        requires
            0 <= r1 < sc,
            0 <= r2 < sc,
            -sc <= c <= sc,
            -sc <= t <= sc,
            0 < sc,
    ;
    assert(sc * (dx - 2) <= nx <= sc * (dx + 2) && sc * (dy - 2) <= ny <= sc * (dy + 2))
        by (nonlinear_arith)
        requires
            sc * nx == dx * (sc * sc) - (r1 * c + r2 * t),
            sc * ny == dy * (sc * sc) - (r2 * c - r1 * t),
            -(2 * (sc * sc)) <= r1 * c + r2 * t <= 2 * (sc * sc),
            -(2 * (sc * sc)) <= r2 * c - r1 * t <= 2 * (sc * sc),
            0 < sc,
    ;
    vstd::arithmetic::div_mod::lemma_div_is_ordered(sc * (dx - 2), nx, sc);
    vstd::arithmetic::div_mod::lemma_div_is_ordered(nx, sc * (dx + 2), sc);
    vstd::arithmetic::div_mod::lemma_div_is_ordered(sc * (dy - 2), ny, sc);
    vstd::arithmetic::div_mod::lemma_div_is_ordered(ny, sc * (dy + 2), sc);
    vstd::arithmetic::div_mod::lemma_div_multiples_vanish(dx - 2, sc);
    vstd::arithmetic::div_mod::lemma_div_multiples_vanish(dx + 2, sc);
    vstd::arithmetic::div_mod::lemma_div_multiples_vanish(dy - 2, sc);
    vstd::arithmetic::div_mod::lemma_div_multiples_vanish(dy + 2, sc);
}

/// Rotation round-trip law: rotating a drawing by the unit vector `(c, t)`
/// and the result back by `(c, -t)` returns every point to within two
/// fixed-point units per axis — provided the rotated drawing's bounding-box
/// centre is the same as the original's. (Rotation can shift the
/// bounding-box centre of an asymmetric drawing, and the second rotation
/// then turns about the shifted centre; on such inputs the round trip is a
/// translation, not the identity.)
pub proof fn lemma_rotate_round_trip_close(
    s: Seq<Point>,
    t: Seq<Point>,
    u: Seq<Point>,
    c: int,
    w: int,
)
    requires
        c * c + w * w == (SCALE as int) * (SCALE as int),
        -SCALE <= c <= SCALE,
        -SCALE <= w <= SCALE,
        t.len() == s.len(),
        u.len() == t.len(),
        forall|i: int|
            #![trigger t[i]]
            0 <= i < s.len() ==> t[i].x == rotated_x(s, c, w, s[i]) && t[i].y == rotated_y(
                s,
                c,
                w,
                s[i],
            ),
        forall|i: int|
            #![trigger u[i]]
            0 <= i < t.len() ==> u[i].x == rotated_x(t, c, -w, t[i]) && u[i].y == rotated_y(
                t,
                c,
                -w,
                t[i],
            ),
        center_x(t) == center_x(s),
        center_y(t) == center_y(s),
    ensures
        forall|i: int|
            #![trigger u[i]]
            0 <= i < s.len() ==> s[i].x - 2 <= u[i].x <= s[i].x + 2 && s[i].y - 2 <= u[i].y
                <= s[i].y + 2,
{
    let cx = center_x(s);
    let cy = center_y(s);
    assert forall|i: int|
        0 <= i < s.len() implies s[i].x - 2 <= #[trigger] u[i].x <= s[i].x + 2 && s[i].y - 2
        <= u[i].y <= s[i].y + 2 by {
        let dx = s[i].x - cx;
        let dy = s[i].y - cy;
        lemma_rotate_back_close(dx, dy, c, w);
        let sc = SCALE as int;
        assert(t[i].x - cx == (dx * c - dy * w) / sc);
        assert(t[i].y - cy == (dy * c + dx * w) / sc);
        let x1 = t[i].x - cx;
        let y1 = t[i].y - cy;
        assert(u[i].x == cx + (x1 * c - y1 * -w) / sc);
        assert(u[i].y == cy + (y1 * c + x1 * -w) / sc);
        assert(x1 * c - y1 * -w == x1 * c + y1 * w) by (nonlinear_arith);
        assert(y1 * c + x1 * -w == y1 * c - x1 * w) by (nonlinear_arith);
    }
}

impl GestureDrawing {
    /// Scales the drawing so all its points fit inside an axis-aligned box
    /// of side `size` with one corner at the origin: the longer bounding-box
    /// axis is mapped onto `[0, size]` and the shorter one is centred inside
    /// it, preserving aspect ratio. A degenerate drawing is scaled by the
    /// guarded minimum basis instead of dividing by zero.
    pub fn normalized(&self, size: i64) -> (r: GestureDrawing)
        requires
            all_in_range(self@),
            0 <= size <= COORD_LIMIT,
        ensures
            r@.len() == self@.len(),
            forall|i: int|
                #![trigger r@[i]]
                0 <= i < self@.len() ==> r@[i].x == normalized_coord(
                    self@[i].x as int,
                    origin_x(self@),
                    size_basis(self@),
                    size as int,
                ) && r@[i].y == normalized_coord(
                    self@[i].y as int,
                    origin_y(self@),
                    size_basis(self@),
                    size as int,
                ) && 0 <= r@[i].x <= size && 0 <= r@[i].y <= size,
    {
        let ghost s = self@;
        let (lo, hi) = self.aabb();
        let mnx = lo.x as i128;
        let mny = lo.y as i128;
        let mxx = hi.x as i128;
        let mxy = hi.y as i128;
        let dx = mxx - mnx;
        let dy = mxy - mny;
        let d = if dx > dy {
            dx
        } else {
            dy
        };
        let m = if d < SIZE_FLOOR as i128 {
            SIZE_FLOOR as i128
        } else {
            d
        };
        proof {
            assert(m == size_basis(s));
        }
        let ox = crate::geom::div_floor(mnx + mxx, 2) - crate::geom::div_floor(m, 2);
        let oy = crate::geom::div_floor(mny + mxy, 2) - crate::geom::div_floor(m, 2);
        proof {
            assert(ox == origin_x(s));
            assert(oy == origin_y(s));
        }
        let mut out: Vec<Point> = Vec::new();
        let mut i: usize = 0;
        while i < self.len()
            invariant
                self@ == s,
                all_in_range(s),
                0 <= size <= COORD_LIMIT,
                i <= s.len(),
                m == size_basis(s),
                1 <= m,
                ox == origin_x(s),
                oy == origin_y(s),
                out@.len() == i,
                forall|j: int|
                    #![trigger out@[j]]
                    0 <= j < i ==> out@[j].x == normalized_coord(
                        s[j].x as int,
                        origin_x(s),
                        size_basis(s),
                        size as int,
                    ) && out@[j].y == normalized_coord(
                        s[j].y as int,
                        origin_y(s),
                        size_basis(s),
                        size as int,
                    ) && 0 <= out@[j].x <= size && 0 <= out@[j].y <= size,
            decreases s.len() - i,
        {
            let p = self.point_at(i);
            proof {
                lemma_bbox_in_range(s);
                lemma_bbox_contains(s, i as int);
                lemma_normalized_coord_bounds(
                    min_x(s),
                    max_x(s),
                    m as int,
                    size as int,
                    p.x as int,
                );
                lemma_normalized_coord_bounds(
                    min_y(s),
                    max_y(s),
                    m as int,
                    size as int,
                    p.y as int,
                );
                assert(m <= 2 * (COORD_LIMIT as int));
                let lim = 2 * (COORD_LIMIT as int) * (COORD_LIMIT as int);
                assert((p.x as int - ox) * (size as int) <= lim && 0 <= (p.x as int - ox) * (
                size as int) && (p.y as int - oy) * (size as int) <= lim && 0 <= (p.y as int - oy)
                    * (size as int)) by (nonlinear_arith)
                    requires
                        0 <= p.x as int - ox <= m,
                        0 <= p.y as int - oy <= m,
                        m <= 2 * (COORD_LIMIT as int),
                        0 <= size <= COORD_LIMIT,
                        lim == 2 * (COORD_LIMIT as int) * (COORD_LIMIT as int),
                ;
            }
            let qx = crate::geom::div_floor((p.x as i128 - ox) * size as i128, m);
            let qy = crate::geom::div_floor((p.y as i128 - oy) * size as i128, m);
            out.push(Point { x: qx as i64, y: qy as i64 });
            i = i + 1;
        }
        GestureDrawing::from_points(out)
    }

    /// Moves every point by `(dx, dy)`.
    pub fn translated(&self, dx: i64, dy: i64) -> (r: GestureDrawing)
        requires
            all_in_range(self@),
            -COORD_LIMIT <= dx <= COORD_LIMIT,
            -COORD_LIMIT <= dy <= COORD_LIMIT,
        ensures
            r@.len() == self@.len(),
            forall|i: int|
                #![trigger r@[i]]
                0 <= i < self@.len() ==> r@[i].x == self@[i].x + dx && r@[i].y == self@[i].y + dy,
    {
        let ghost s = self@;
        let mut out: Vec<Point> = Vec::new();
        let mut i: usize = 0;
        while i < self.len()
            invariant
                self@ == s,
                all_in_range(s),
                -COORD_LIMIT <= dx <= COORD_LIMIT,
                -COORD_LIMIT <= dy <= COORD_LIMIT,
                i <= s.len(),
                out@.len() == i,
                forall|j: int|
                    #![trigger out@[j]]
                    0 <= j < i ==> out@[j].x == s[j].x + dx && out@[j].y == s[j].y + dy,
            decreases s.len() - i,
        {
            let p = self.point_at(i);
            proof {
                assert(crate::geom::in_range(s[i as int]));
            }
            out.push(Point { x: p.x + dx, y: p.y + dy });
            i = i + 1;
        }
        GestureDrawing::from_points(out)
    }

    /// Reflects the drawing across the vertical line through the horizontal
    /// centre of its bounding box; only x coordinates change, and each stays
    /// inside the original horizontal extent.
    pub fn reflected(&self) -> (r: GestureDrawing)
        requires
            all_in_range(self@),
        ensures
            r@.len() == self@.len(),
            forall|i: int|
                #![trigger r@[i]]
                0 <= i < self@.len() ==> r@[i].x == reflected_x(self@, self@[i].x as int)
                    && r@[i].y == self@[i].y,
    {
        let ghost s = self@;
        let (lo, hi) = self.aabb();
        let sum = lo.x as i128 + hi.x as i128;
        let mut out: Vec<Point> = Vec::new();
        let mut i: usize = 0;
        while i < self.len()
            invariant
                self@ == s,
                all_in_range(s),
                sum == min_x(s) + max_x(s),
                i <= s.len(),
                out@.len() == i,
                forall|j: int|
                    #![trigger out@[j]]
                    0 <= j < i ==> out@[j].x == reflected_x(s, s[j].x as int) && out@[j].y
                        == s[j].y,
            decreases s.len() - i,
        {
            let p = self.point_at(i);
            proof {
                lemma_bbox_in_range(s);
                lemma_bbox_contains(s, i as int);
            }
            let rx = sum - p.x as i128;
            out.push(Point { x: rx as i64, y: p.y });
            i = i + 1;
        }
        GestureDrawing::from_points(out)
    }

    /// Rotates the drawing about its bounding-box centre by the fixed-point
    /// unit vector `(cos_t, sin_t)` — the cosine and sine of the angle in
    /// `SCALE` units. With y growing downward the rotation is visually
    /// clockwise for a mathematically positive angle.
    pub fn rotated(&self, cos_t: i64, sin_t: i64) -> (r: GestureDrawing)
        requires
            all_in_range(self@),
            -SCALE <= cos_t <= SCALE,
            -SCALE <= sin_t <= SCALE,
        ensures
            r@.len() == self@.len(),
            forall|i: int|
                #![trigger r@[i]]
                0 <= i < self@.len() ==> r@[i].x == rotated_x(
                    self@,
                    cos_t as int,
                    sin_t as int,
                    self@[i],
                ) && r@[i].y == rotated_y(self@, cos_t as int, sin_t as int, self@[i]),
    {
        let ghost s = self@;
        let (lo, hi) = self.aabb();
        let cx = crate::geom::div_floor(lo.x as i128 + hi.x as i128, 2);
        let cy = crate::geom::div_floor(lo.y as i128 + hi.y as i128, 2);
        proof {
            assert(cx == center_x(s));
            assert(cy == center_y(s));
        }
        let mut out: Vec<Point> = Vec::new();
        let mut i: usize = 0;
        while i < self.len()
            invariant
                self@ == s,
                all_in_range(s),
                -SCALE <= cos_t <= SCALE,
                -SCALE <= sin_t <= SCALE,
                cx == center_x(s),
                cy == center_y(s),
                i <= s.len(),
                out@.len() == i,
                forall|j: int|
                    #![trigger out@[j]]
                    0 <= j < i ==> out@[j].x == rotated_x(s, cos_t as int, sin_t as int, s[j])
                        && out@[j].y == rotated_y(s, cos_t as int, sin_t as int, s[j]),
            decreases s.len() - i,
        {
            let p = self.point_at(i);
            proof {
                lemma_bbox_in_range(s);
                lemma_bbox_contains(s, i as int);
                lemma_div_range(min_x(s) + max_x(s), 2, COORD_LIMIT as int);
                lemma_div_range(min_y(s) + max_y(s), 2, COORD_LIMIT as int);
            }
            let dxc = p.x as i128 - cx;
            let dyc = p.y as i128 - cy;
            proof {
                let c2 = 2 * (COORD_LIMIT as int);
                let bound = 8 * (COORD_LIMIT as int) * (SCALE as int);
                assert(-bound <= dxc * (cos_t as int) <= bound && -bound <= dyc * (sin_t as int)
                    <= bound && -bound <= dyc * (cos_t as int) <= bound && -bound <= dxc * (
                sin_t as int) <= bound) by (nonlinear_arith)
                    requires
                        -c2 <= dxc <= c2,
                        -c2 <= dyc <= c2,
                        -SCALE <= cos_t <= SCALE,
                        -SCALE <= sin_t <= SCALE,
                        c2 == 2 * (COORD_LIMIT as int),
                        bound == 8 * (COORD_LIMIT as int) * (SCALE as int),
                ;
            }
            let numx = dxc * cos_t as i128 - dyc * sin_t as i128;
            let numy = dyc * cos_t as i128 + dxc * sin_t as i128;
            proof {
                lemma_div_range(numx as int, SCALE as int, 16 * (COORD_LIMIT as int));
                lemma_div_range(numy as int, SCALE as int, 16 * (COORD_LIMIT as int));
                assert((SCALE as int) * (16 * (COORD_LIMIT as int)) == 16 * (COORD_LIMIT as int) * (
                SCALE as int)) by (nonlinear_arith);
            }
            let qx = cx + crate::geom::div_floor(numx, SCALE as i128);
            let qy = cy + crate::geom::div_floor(numy, SCALE as i128);
            out.push(Point { x: qx as i64, y: qy as i64 });
            i = i + 1;
        }
        GestureDrawing::from_points(out)
    }
}

} // verus!

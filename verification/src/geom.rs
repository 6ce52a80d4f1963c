//! Fixed-point plane geometry: the coordinate scale, the `Point` value type,
//! bounding-box folds over point sequences, and the integer division and
//! square-root primitives the transforms and the rasterizer are built on.
//!
//! Coordinates live on a decimal fixed-point grid: `SCALE` units stand for one
//! coordinate unit, so `0.0001` of a unit is exactly one grid step. All
//! divisions in contracts are the mathematical (Euclidean) ones; the one
//! executable division helper is proved to floor.

use vstd::prelude::*;

verus! {

/// Fixed-point units per coordinate unit.
pub const SCALE: i64 = 10_000;

/// Largest coordinate magnitude (in fixed-point units) the transforms accept.
/// It keeps every intermediate product inside `i128` and every transformed
/// coordinate inside `i64`.
pub const COORD_LIMIT: i64 = 4_000_000_000_000_000;

/// Smallest scale basis the normalization accepts, in fixed-point units:
/// one unit, which stands for 0.0001 of a coordinate unit. It guards the
/// division in `normalized` against a degenerate bounding box.
pub const SIZE_FLOOR: i64 = 1;

/// A 2-D point in fixed-point units; x grows rightward, y grows downward
/// (screen convention).
#[derive(Clone, Copy, Debug, PartialEq, Eq, Structural)]
pub struct Point {
    pub x: i64,
    pub y: i64,
}

/// Both coordinates of `p` are within `COORD_LIMIT`.
pub open spec fn in_range(p: Point) -> bool {
    -COORD_LIMIT <= p.x <= COORD_LIMIT && -COORD_LIMIT <= p.y <= COORD_LIMIT
}

/// Every point of `s` is within `COORD_LIMIT`.
pub open spec fn all_in_range(s: Seq<Point>) -> bool {
    forall|i: int| 0 <= i < s.len() ==> in_range(#[trigger] s[i])
}

/// Least x coordinate of `s`; `i64::MAX` for an empty sequence (the
/// degenerate bounding box stands in for a fold that starts at plus
/// infinity).
pub open spec fn min_x(s: Seq<Point>) -> int
    decreases s.len(),
{
    if s.len() == 0 {
        i64::MAX as int
    } else {
        let m = min_x(s.drop_last());
        if s.last().x < m {
            s.last().x as int
        } else {
            m
        }
    }
}

/// Least y coordinate of `s`; `i64::MAX` for an empty sequence.
pub open spec fn min_y(s: Seq<Point>) -> int
    decreases s.len(),
{
    if s.len() == 0 {
        i64::MAX as int
    } else {
        let m = min_y(s.drop_last());
        if s.last().y < m {
            s.last().y as int
        } else {
            m
        }
    }
}

/// Greatest x coordinate of `s`; `i64::MIN` for an empty sequence (minus
/// infinity collapsed to the representable floor).
pub open spec fn max_x(s: Seq<Point>) -> int
    decreases s.len(),
{
    if s.len() == 0 {
        i64::MIN as int
    } else {
        let m = max_x(s.drop_last());
        if s.last().x > m {
            s.last().x as int
        } else {
            m
        }
    }
}

/// Greatest y coordinate of `s`; `i64::MIN` for an empty sequence.
pub open spec fn max_y(s: Seq<Point>) -> int
    decreases s.len(),
{
    if s.len() == 0 {
        i64::MIN as int
    } else {
        let m = max_y(s.drop_last());
        if s.last().y > m {
            s.last().y as int
        } else {
            m
        }
    }
}

/// Each bounding-box fold is bounded by the coordinates it folds over, so on
/// an in-range nonempty sequence every fold result is in range.
pub proof fn lemma_bbox_in_range(s: Seq<Point>)
    requires
        all_in_range(s),
        s.len() > 0,
    ensures
        -COORD_LIMIT <= min_x(s) <= COORD_LIMIT,
        -COORD_LIMIT <= min_y(s) <= COORD_LIMIT,
        -COORD_LIMIT <= max_x(s) <= COORD_LIMIT,
        -COORD_LIMIT <= max_y(s) <= COORD_LIMIT,
        min_x(s) <= max_x(s),
        min_y(s) <= max_y(s),
    decreases s.len(),
{
    reveal_with_fuel(min_x, 2);
    reveal_with_fuel(min_y, 2);
    reveal_with_fuel(max_x, 2);
    reveal_with_fuel(max_y, 2);
    assert(in_range(s[s.len() - 1]));
    assert(s.last() == s[s.len() - 1]);
    if s.len() > 1 {
        assert(all_in_range(s.drop_last())) by {
            assert(forall|i: int|
                0 <= i < s.drop_last().len() ==> #[trigger] s.drop_last()[i] == s[i]);
        }
        lemma_bbox_in_range(s.drop_last());
    }
}

/// The bounding-box folds look only at the multiset of coordinates one
/// prefix at a time: extending a sequence by one point combines the fold of
/// the prefix with that point.
pub proof fn lemma_bbox_step(s: Seq<Point>, i: int)
    requires
        0 <= i < s.len(),
    ensures
        min_x(s.take(i + 1)) == if s[i].x < min_x(s.take(i)) { s[i].x as int } else {
            min_x(s.take(i))
        },
        min_y(s.take(i + 1)) == if s[i].y < min_y(s.take(i)) { s[i].y as int } else {
            min_y(s.take(i))
        },
        max_x(s.take(i + 1)) == if s[i].x > max_x(s.take(i)) { s[i].x as int } else {
            max_x(s.take(i))
        },
        max_y(s.take(i + 1)) == if s[i].y > max_y(s.take(i)) { s[i].y as int } else {
            max_y(s.take(i))
        },
{
    assert(s.take(i + 1).drop_last() =~= s.take(i));
    assert(s.take(i + 1).last() == s[i]);
}

/// Every point lies inside the bounding box its sequence folds to.
pub proof fn lemma_bbox_contains(s: Seq<Point>, i: int)
    requires
        0 <= i < s.len(),
    ensures
        min_x(s) <= s[i].x <= max_x(s),
        min_y(s) <= s[i].y <= max_y(s),
    decreases s.len(),
{
    if i < s.len() - 1 {
        lemma_bbox_contains(s.drop_last(), i);
        assert(s.drop_last()[i] == s[i]);
    } else {
        assert(s.last() == s[i]);
    }
}

/// Floor division on `i128` with a positive divisor: the result is exactly
/// the mathematical quotient `a / b` of the contract language.
pub fn div_floor(a: i128, b: i128) -> (r: i128)
    requires
        0 < b,
    ensures
        r == a as int / b as int,
{
    proof {
        lemma_floor_quotient_fits(a as int, b as int);
    }
    match a.checked_div_euclid(b) {
        Some(q) => q,
        None => 0,
    }
}

/// With a positive divisor the quotient never grows in magnitude, so it
/// always fits the dividend's type.
pub proof fn lemma_floor_quotient_fits(a: int, b: int)
    requires
        0 < b,
    ensures
        a >= 0 ==> 0 <= a / b <= a,
        a < 0 ==> a <= a / b <= 0,
{
    if a >= 0 {
        vstd::arithmetic::div_mod::lemma_div_pos_is_pos(a, b);
        vstd::arithmetic::div_mod::lemma_div_nonincreasing(a, b);
    } else {
        vstd::arithmetic::div_mod::lemma_fundamental_div_mod(a, b);
        let q = a / b;
        let r = a % b;
        assert(0 <= r < b);
        assert(b * q == a - r);
        assert(q <= 0) by (nonlinear_arith)
            requires
                b * q == a - r,
                a < 0,
                0 <= r < b,
        ;
        assert(q >= a) by (nonlinear_arith)
            requires
                b * q == a - r,
                a < 0,
                0 < b,
                0 <= r < b,
                q <= 0,
        ;
    }
}

/// A floor quotient lies between the quotients of any multiples of the
/// divisor that bracket the dividend.
pub proof fn lemma_div_range(a: int, b: int, k: int)
    requires
        0 < b,
        -b * k <= a <= b * k,
    ensures
        -k <= a / b <= k,
{
    vstd::arithmetic::div_mod::lemma_div_is_ordered(-b * k, a, b);
    vstd::arithmetic::div_mod::lemma_div_is_ordered(a, b * k, b);
    vstd::arithmetic::div_mod::lemma_div_multiples_vanish(k, b);
    vstd::arithmetic::div_mod::lemma_div_multiples_vanish(-k, b);
    assert(b * k == k * b) by (nonlinear_arith);
    assert(b * -k == -k * b) by (nonlinear_arith);
    assert(-b * k == b * -k) by (nonlinear_arith);
}

/// Integer square root: the greatest `r` with `r * r <= n`.
pub fn isqrt(n: u128) -> (r: u128)
    ensures
        r * r <= n < (r + 1) * (r + 1),
{
    if n == 0 {
        return 0;
    }
    let mut lo: u128 = 0;
    let mut hi: u128 = 0x1_0000_0000_0000_0000;
    if n < hi {
        hi = n + 1;
    }
    proof {
        assert(n < hi * hi) by (nonlinear_arith)
            requires
                hi == 0x1_0000_0000_0000_0000 || hi == n + 1,
                n <= u128::MAX,
        ;
    }
    while hi - lo > 1
        invariant
            lo < hi,
            hi <= 0x1_0000_0000_0000_0000,
            lo * lo <= n,
            n < hi * hi,
        decreases hi - lo,
    {
        let mid: u128 = lo + (hi - lo) / 2;
        assert(lo < mid < hi);
        assert(mid * mid <= 0xffff_ffff_ffff_ffff * 0xffff_ffff_ffff_ffff) by (nonlinear_arith)
            requires
                mid <= 0xffff_ffff_ffff_ffff,
        ;
        if mid * mid <= n {
            lo = mid;
        } else {
            hi = mid;
        }
    }
    proof {
        assert(hi == lo + 1);
    }
    lo
}

} // verus!

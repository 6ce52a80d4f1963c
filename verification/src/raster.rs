//! The rasterizer: renders a drawing onto a fixed 28-by-28 intensity grid
//! by sweeping a capsule-shaped footprint (a thickened segment with round
//! end caps) over each consecutive point pair, and compositing the
//! per-segment grids with a per-pixel maximum — so overlapping strokes
//! never exceed full intensity. The accumulation grid is transposed before
//! it is returned.
//!
//! Intensities are fixed-point: `0` is blank, `SCALE` is full ink. Samples
//! step on a regular lattice along and across each segment; each sample is
//! truncated to a pixel, pixels outside the grid are discarded, and within
//! one segment's pass the first sample to reach a pixel wins.

use crate::drawing::GestureDrawing;
use crate::geom::{
    all_in_range, div_floor, in_range, isqrt, lemma_div_range, Point,
    COORD_LIMIT, SCALE,
};
use vstd::prelude::*;

verus! {

/// Pixels per grid side.
pub const GRID_DIM: usize = 28;

/// Cells in the whole grid.
pub const GRID_CELLS: usize = 784;

/// Stroke width of the capsule footprint, in fixed-point units (2.5).
pub const STROKE_WIDTH: i64 = 25_000;

/// Half the stroke width (1.25).
pub const HALF_WIDTH: i64 = 12_500;

/// Sampling step along both capsule axes, in fixed-point units (0.6).
pub const SAMPLE_STEP: i64 = 6_000;

/// A 28-by-28 grid of fixed-point intensities, row-major: the cell at row
/// `r`, column `c` is `cells[r * 28 + c]`, between `0` and `SCALE`.
pub struct Grid {
    pub cells: Vec<i64>,
}

/// A well-formed grid: 784 cells, each between blank and full ink.
pub open spec fn grid_wf(cells: Seq<i64>) -> bool {
    cells.len() == 784 && forall|t: int| 0 <= t < cells.len() ==> 0 <= #[trigger] cells[t] <= SCALE
}

impl Grid {
    /// Composites this grid with another by per-pixel maximum — the same
    /// combine step the rasterizer uses between segments, so overlapping
    /// renderings never exceed full intensity.
    pub fn composited(&self, other: &Grid) -> (r: Grid)
        requires
            self.cells@.len() == 784,
            other.cells@.len() == 784,
        ensures
            r.cells@ == max_cells(self.cells@, other.cells@),
    {
        let mut cells: Vec<i64> = Vec::new();
        let mut t: usize = 0;
        while t < 784
            invariant
                self.cells@.len() == 784,
                t <= 784,
                cells@ =~= self.cells@.take(t as int),
            decreases 784 - t,
        {
            cells.push(self.cells[t]);
            proof {
                assert(cells@ =~= self.cells@.take(t + 1));
            }
            t = t + 1;
        }
        proof {
            assert(cells@ =~= self.cells@);
        }
        composite_into(&mut cells, &other.cells);
        Grid { cells }
    }

    /// The intensity at row `r`, column `c`.
    pub fn intensity_at(&self, r: usize, c: usize) -> (v: i64)
        requires
            r < 28,
            c < 28,
            self.cells@.len() == 784,
        ensures
            v == self.cells@[r as int * 28 + c as int],
    {
        self.cells[r * 28 + c]
    }
}

/// The alpha falloff: full ink while the distance from the stroke's
/// centreline is at most a quarter of the half-width, then a straight
/// decay to blank at the full half-width — `clamp((1 - d/(w/2)) * 4/3, 0, 1)`
/// in fixed point.
pub open spec fn alpha_of(dist: int) -> int {
    let dn = dist * SCALE / (HALF_WIDTH as int);
    if dn >= SCALE {
        0
    } else if (SCALE - dn) * 4 / 3 > SCALE {
        SCALE as int
    } else {
        (SCALE - dn) * 4 / 3
    }
}

/// Computes the alpha falloff exactly.
fn alpha_exec(dist: i128) -> (a: i64)
    requires
        0 <= dist <= 0x1_0000_0000_0000_0000_0000_0000,
    ensures
        a == alpha_of(dist as int),
        0 <= a <= SCALE,
{
    let dn = div_floor(dist * SCALE as i128, HALF_WIDTH as i128);
    proof {
        crate::geom::lemma_floor_quotient_fits(dist as int * SCALE as int, HALF_WIDTH as int);
    }
    if dn >= SCALE as i128 {
        0
    } else {
        proof {
            vstd::arithmetic::div_mod::lemma_div_pos_is_pos(dist as int * SCALE as int, HALF_WIDTH as int);
            assert(dist as int * SCALE as int >= 0) by (nonlinear_arith)
                requires
                    dist >= 0,
            ;
        }
        let a = div_floor((SCALE as i128 - dn) * 4, 3);
        proof {
            lemma_div_range((SCALE as i128 - dn) as int * 4, 3, 4 * (SCALE as int));
        }
        if a > SCALE as i128 {
            SCALE
        } else {
            proof {
                vstd::arithmetic::div_mod::lemma_div_pos_is_pos((SCALE as i128 - dn) as int * 4, 3);
            }
            a as i64
        }
    }
}

/// Elementwise maximum of two equally long cell sequences.
pub open spec fn max_cells(a: Seq<i64>, b: Seq<i64>) -> Seq<i64> {
    Seq::new(a.len(), |t: int| if a[t] >= b[t] { a[t] } else { b[t] })
}

/// Compositing a well-formed grid with itself changes nothing: overlapping
/// identical strokes render as one.
pub proof fn lemma_composite_idempotent(a: Seq<i64>)
    ensures
        max_cells(a, a) == a,
{
    assert(max_cells(a, a) =~= a);
}

/// Compositing is commutative: segment order cannot matter.
pub proof fn lemma_composite_commutative(a: Seq<i64>, b: Seq<i64>)
    requires
        a.len() == b.len(),
    ensures
        max_cells(a, b) == max_cells(b, a),
{
    assert(max_cells(a, b) =~= max_cells(b, a));
}

/// Compositing is associative: grouping of segments cannot matter.
pub proof fn lemma_composite_associative(a: Seq<i64>, b: Seq<i64>, c: Seq<i64>)
    requires
        a.len() == b.len() == c.len(),
    ensures
        max_cells(max_cells(a, b), c) == max_cells(a, max_cells(b, c)),
{
    assert(max_cells(max_cells(a, b), c) =~= max_cells(a, max_cells(b, c)));
}

/// Overlaying a drawing's rasterization with itself changes nothing: two
/// identical overlapping strokes render exactly as one.
pub proof fn lemma_raster_overlay_idempotent(s: Seq<Point>)
    ensures
        max_cells(raster_of(s), raster_of(s)) == raster_of(s),
{
    lemma_composite_idempotent(raster_of(s));
}

/// Compositing preserves well-formedness: the maximum of intensities that
/// never exceed full ink never exceeds full ink.
pub proof fn lemma_composite_wf(a: Seq<i64>, b: Seq<i64>)
    requires
        grid_wf(a),
        grid_wf(b),
        a.len() == b.len(),
    ensures
        grid_wf(max_cells(a, b)),
{
}

/// Composites `other` into `acc` by per-cell maximum.
fn composite_into(acc: &mut Vec<i64>, other: &Vec<i64>)
    requires
        old(acc)@.len() == 784,
        other@.len() == 784,
    ensures
        final(acc)@ == max_cells(old(acc)@, other@),
{
    let ghost a0 = acc@;
    let mut t: usize = 0;
    while t < 784
        invariant
            a0.len() == 784,
            acc@.len() == 784,
            other@.len() == 784,
            t <= 784,
            forall|u: int| 0 <= u < t ==> acc@[u] == max_cells(a0, other@)[u],
            forall|u: int| t <= u < 784 ==> acc@[u] == a0[u],
        decreases 784 - t,
    {
        if other[t] > acc[t] {
            acc[t] = other[t];
        }
        t = t + 1;
    }
    proof {
        assert(acc@ =~= max_cells(a0, other@));
    }
}

/// The kind of one capsule sample: on the stroke body, or on one of the
/// two round end caps.
pub enum SampleKind {
    Body,
    CapStart,
    CapEnd,
}

/// An all-blank accumulation buffer.
pub open spec fn blank_cells() -> Seq<i64> {
    Seq::new(784, |t: int| 0i64)
}

/// No pixel visited yet.
pub open spec fn unvisited() -> Seq<bool> {
    Seq::new(784, |t: int| false)
}

/// The pixel a fixed-point coordinate truncates to: towards zero, so
/// anything in the open unit below zero still lands on pixel 0, and
/// anything at or beyond one whole unit below is off the grid (-1).
pub open spec fn pixel_index(p: int) -> int {
    if p <= -(SCALE as int) {
        -1
    } else if p < 0 {
        0
    } else {
        p / (SCALE as int)
    }
}

/// The distance a sample's pixel stands from the stroke: the projection of
/// its offset from the segment start onto the perpendicular for body
/// samples, the straight-line distance to the respective endpoint for cap
/// samples.
pub open spec fn sample_dist(
    p1: Point,
    p2: Point,
    perpx: int,
    perpy: int,
    pm: int,
    xi: int,
    yi: int,
    kind: SampleKind,
) -> int {
    let ax = xi * (SCALE as int) - p1.x;
    let ay = yi * (SCALE as int) - p1.y;
    let bx = xi * (SCALE as int) - p2.x;
    let by = yi * (SCALE as int) - p2.y;
    match kind {
        SampleKind::Body => crate::simplify::abs_val(ax * perpx + ay * perpy) / pm,
        SampleKind::CapStart => crate::simplify::sqrt_floor(ax * ax + ay * ay),
        SampleKind::CapEnd => crate::simplify::sqrt_floor(bx * bx + by * by),
    }
}

/// The effect of plotting one capsule sample on the accumulation state:
/// off-grid and already-visited pixels change nothing; a fresh pixel is
/// marked visited and receives the alpha of its sample distance.
pub open spec fn plot_spec(
    cells: Seq<i64>,
    visited: Seq<bool>,
    p1: Point,
    p2: Point,
    dirx: int,
    diry: int,
    pm: int,
    l: int,
    w: int,
    kind: SampleKind,
) -> (Seq<i64>, Seq<bool>) {
    let perpx = -diry;
    let perpy = dirx;
    let px = p1.x + (dirx * l + perpx * w) / (SCALE as int);
    let py = p1.y + (diry * l + perpy * w) / (SCALE as int);
    let xi = pixel_index(px);
    let yi = pixel_index(py);
    if xi < 0 || yi < 0 || xi >= 28 || yi >= 28 {
        (cells, visited)
    } else {
        let idx = xi * 28 + yi;
        if visited[idx] {
            (cells, visited)
        } else {
            let dist = sample_dist(p1, p2, perpx, perpy, pm, xi, yi, kind);
            (cells.update(idx, alpha_of(dist) as i64), visited.update(idx, true))
        }
    }
}

/// One sweep along the segment body at perpendicular offset `w`: samples
/// `li .. lc` in order.
pub open spec fn body_pass(
    cells: Seq<i64>,
    visited: Seq<bool>,
    p1: Point,
    p2: Point,
    dirx: int,
    diry: int,
    pm: int,
    w: int,
    li: int,
    lc: int,
) -> (Seq<i64>, Seq<bool>)
    decreases lc + 1 - li,
{
    if li > lc || li < 0 {
        (cells, visited)
    } else {
        let st = plot_spec(
            cells,
            visited,
            p1,
            p2,
            dirx,
            diry,
            pm,
            li * (SAMPLE_STEP as int),
            w,
            SampleKind::Body,
        );
        body_pass(st.0, st.1, p1, p2, dirx, diry, pm, w, li + 1, lc)
    }
}

/// The end caps at perpendicular offset `w`: for each cap step, one sample
/// before the start and one past the end of the segment.
pub open spec fn cap_pass(
    cells: Seq<i64>,
    visited: Seq<bool>,
    p1: Point,
    p2: Point,
    dirx: int,
    diry: int,
    pm: int,
    ell: int,
    w: int,
    di: int,
) -> (Seq<i64>, Seq<bool>)
    decreases 3 - di,
{
    if di >= 3 || di < 0 {
        (cells, visited)
    } else {
        let d = di * (SAMPLE_STEP as int);
        let st1 = plot_spec(cells, visited, p1, p2, dirx, diry, pm, -d, w, SampleKind::CapStart);
        let st2 = plot_spec(st1.0, st1.1, p1, p2, dirx, diry, pm, ell + d, w, SampleKind::CapEnd);
        cap_pass(st2.0, st2.1, p1, p2, dirx, diry, pm, ell, w, di + 1)
    }
}

/// The full capsule sweep: for each of the five perpendicular offsets, the
/// body pass and then the cap pass.
pub open spec fn width_pass(
    cells: Seq<i64>,
    visited: Seq<bool>,
    p1: Point,
    p2: Point,
    dirx: int,
    diry: int,
    pm: int,
    ell: int,
    lc: int,
    wi: int,
) -> (Seq<i64>, Seq<bool>)
    decreases 5 - wi,
{
    if wi >= 5 || wi < 0 {
        (cells, visited)
    } else {
        let w = -(HALF_WIDTH as int) + wi * (SAMPLE_STEP as int);
        let st1 = body_pass(cells, visited, p1, p2, dirx, diry, pm, w, 0, lc);
        let st2 = cap_pass(st1.0, st1.1, p1, p2, dirx, diry, pm, ell, w, 0);
        width_pass(st2.0, st2.1, p1, p2, dirx, diry, pm, ell, lc, wi + 1)
    }
}

/// What one segment renders: the capsule sweep over a blank buffer, with
/// the direction vector, perpendicular magnitude and sample counts all
/// derived from the endpoints in fixed point. A zero-length segment (and
/// the unreachable degenerate direction) renders blank.
pub open spec fn segment_spec(p1: Point, p2: Point) -> Seq<i64> {
    let dx = p2.x - p1.x;
    let dy = p2.y - p1.y;
    if dx == 0 && dy == 0 {
        blank_cells()
    } else {
        let ell = crate::simplify::sqrt_floor(dx * dx + dy * dy);
        let dirx = (dx * (SCALE as int)) / ell;
        let diry = (dy * (SCALE as int)) / ell;
        let pm = crate::simplify::sqrt_floor(dirx * dirx + diry * diry);
        if pm == 0 {
            blank_cells()
        } else {
            let lc = ell / (SAMPLE_STEP as int);
            width_pass(blank_cells(), unvisited(), p1, p2, dirx, diry, pm, ell, lc, 0).0
        }
    }
}

/// The accumulation over the remaining segments from the `i`-th point on:
/// each segment's rendering composited in by per-pixel maximum.
pub open spec fn raster_acc(s: Seq<Point>, acc: Seq<i64>, i: int) -> Seq<i64>
    decreases s.len() - i,
{
    if i >= s.len() || i < 1 {
        acc
    } else {
        raster_acc(s, max_cells(acc, segment_spec(s[i - 1], s[i])), i + 1)
    }
}

/// The accumulation buffer read with its axes swapped.
pub open spec fn transpose_cells(acc: Seq<i64>) -> Seq<i64> {
    Seq::new(784, |t: int| acc[28 * (t % 28) + t / 28])
}

/// Everything `rasterized` returns: the per-segment capsule renderings,
/// composited by per-pixel maximum and transposed.
pub open spec fn raster_of(s: Seq<Point>) -> Seq<i64> {
    transpose_cells(raster_acc(s, blank_cells(), 1))
}

/// Plots one sample of a segment's capsule: walks `l` units along the
/// direction vector and `w` units along the perpendicular from the segment
/// start, truncates to a pixel, discards pixels off the grid or already
/// visited in this segment's pass, and writes the alpha of the sample's
/// distance — from the centreline for body samples, from the respective
/// endpoint for cap samples.
#[verifier::rlimit(80)]
fn plot_sample(
    cells: &mut Vec<i64>,
    visited: &mut Vec<bool>,
    p1: Point,
    p2: Point,
    dirx: i128,
    diry: i128,
    pm: i128,
    l: i128,
    w: i128,
    kind: SampleKind,
)
    requires
        old(cells)@.len() == 784,
        old(visited)@.len() == 784,
        forall|t: int| 0 <= t < 784 ==> 0 <= #[trigger] old(cells)@[t] <= SCALE,
        in_range(p1),
        in_range(p2),
        -SCALE <= dirx <= SCALE,
        -SCALE <= diry <= SCALE,
        1 <= pm <= 20_000,
        -0x1000_0000_0000_0000 <= l <= 0x1000_0000_0000_0000,
        -HALF_WIDTH <= w <= HALF_WIDTH,
    ensures
        final(cells)@.len() == 784,
        final(visited)@.len() == 784,
        forall|t: int| 0 <= t < 784 ==> 0 <= #[trigger] final(cells)@[t] <= SCALE,
        (final(cells)@, final(visited)@) == plot_spec(
            old(cells)@,
            old(visited)@,
            p1,
            p2,
            dirx as int,
            diry as int,
            pm as int,
            l as int,
            w as int,
            kind,
        ),
{
    let perpx = -diry;
    let perpy = dirx;
    proof {
        let lim: int = 0x1000_0000_0000_0000;
        assert(-lim * SCALE <= dirx * l <= lim * SCALE && -lim * SCALE <= diry * l <= lim * SCALE
            && -(HALF_WIDTH as int) * SCALE <= perpx * w <= (HALF_WIDTH as int) * SCALE && -(
        HALF_WIDTH as int) * SCALE <= perpy * w <= (HALF_WIDTH as int) * SCALE)
            by (nonlinear_arith)
            requires
                -SCALE <= dirx <= SCALE,
                -SCALE <= diry <= SCALE,
                -SCALE <= perpx <= SCALE,
                -SCALE <= perpy <= SCALE,
                -lim <= l <= lim,
                -HALF_WIDTH <= w <= HALF_WIDTH,
                lim == 0x1000_0000_0000_0000,
        ;
        lemma_div_range(
            (dirx * l + perpx * w) as int,
            SCALE as int,
            0x1000_0000_0000_0000 + HALF_WIDTH as int,
        );
        lemma_div_range(
            (diry * l + perpy * w) as int,
            SCALE as int,
            0x1000_0000_0000_0000 + HALF_WIDTH as int,
        );
        assert((SCALE as int) * (0x1000_0000_0000_0000 + HALF_WIDTH as int) == (
        0x1000_0000_0000_0000 + HALF_WIDTH as int) * (SCALE as int)) by (nonlinear_arith);
    }
    let px = p1.x as i128 + div_floor(dirx * l + perpx * w, SCALE as i128);
    let py = p1.y as i128 + div_floor(diry * l + perpy * w, SCALE as i128);
    // Truncation towards zero: anything in (-1, 0) lands on pixel 0, at or
    // beyond -1 is off the grid.
    let xi: i128 = if px <= -(SCALE as i128) {
        -1
    } else if px < 0 {
        0
    } else {
        div_floor(px, SCALE as i128)
    };
    let yi: i128 = if py <= -(SCALE as i128) {
        -1
    } else if py < 0 {
        0
    } else {
        div_floor(py, SCALE as i128)
    };
    proof {
        if px >= 0 {
            vstd::arithmetic::div_mod::lemma_div_pos_is_pos(px as int, SCALE as int);
        }
        if py >= 0 {
            vstd::arithmetic::div_mod::lemma_div_pos_is_pos(py as int, SCALE as int);
        }
    }
    proof {
        assert(px == p1.x + ((dirx as int) * l + (-(diry as int)) * w) / (SCALE as int));
        assert(py == p1.y + ((diry as int) * l + (dirx as int) * w) / (SCALE as int));
        assert(xi == pixel_index(px as int));
        assert(yi == pixel_index(py as int));
    }
    if xi < 0 || yi < 0 || xi >= 28 || yi >= 28 {
        proof {
            assert(plot_spec(
                cells@,
                visited@,
                p1,
                p2,
                dirx as int,
                diry as int,
                pm as int,
                l as int,
                w as int,
                kind,
            ) == (cells@, visited@));
        }
        return ;
    }
    let idx: usize = (xi * 28 + yi) as usize;
    if visited[idx] {
        proof {
            assert(plot_spec(
                cells@,
                visited@,
                p1,
                p2,
                dirx as int,
                diry as int,
                pm as int,
                l as int,
                w as int,
                kind,
            ) == (cells@, visited@));
        }
        return ;
    }
    visited[idx] = true;
    let vsx: i128;
    let vsy: i128;
    match kind {
        SampleKind::CapEnd => {
            vsx = xi * SCALE as i128 - p2.x as i128;
            vsy = yi * SCALE as i128 - p2.y as i128;
        },
        _ => {
            vsx = xi * SCALE as i128 - p1.x as i128;
            vsy = yi * SCALE as i128 - p1.y as i128;
        },
    }
    let dist: i128 = match kind {
        SampleKind::Body => {
            proof {
                let c1: int = 5 * (COORD_LIMIT as int);
                assert(-c1 * SCALE <= vsx * perpx <= c1 * SCALE && -c1 * SCALE <= vsy * perpy <= c1
                    * SCALE) by (nonlinear_arith)
                    requires
                        -c1 <= vsx <= c1,
                        -c1 <= vsy <= c1,
                        -SCALE <= perpx <= SCALE,
                        -SCALE <= perpy <= SCALE,
                        c1 == 5 * (COORD_LIMIT as int),
                ;
            }
            let dot = vsx * perpx + vsy * perpy;
            let mag = if dot < 0 {
                -dot
            } else {
                dot
            };
            proof {
                crate::geom::lemma_floor_quotient_fits(mag as int, pm as int);
            }
            div_floor(mag, pm)
        },
        _ => {
            proof {
                let c1: int = 5 * (COORD_LIMIT as int);
                assert(0 <= vsx * vsx <= c1 * c1 && 0 <= vsy * vsy <= c1 * c1 && 0 <= vsx * vsx
                    + vsy * vsy <= 2 * (c1 * c1)) by (nonlinear_arith)
                    requires
                        -c1 <= vsx <= c1,
                        -c1 <= vsy <= c1,
                        c1 == 5 * (COORD_LIMIT as int),
                ;
            }
            let d2 = vsx * vsx + vsy * vsy;
            let root = isqrt(d2 as u128);
            proof {
                let c1: int = 5 * (COORD_LIMIT as int);
                assert(root <= 2 * c1) by (nonlinear_arith)
                    requires
                        root * root <= 2 * (c1 * c1),
                        0 <= root,
                        0 < c1,
                ;
                crate::simplify::lemma_sqrt_unique(d2 as int, root as int);
            }
            root as i128
        },
    };
    proof {
        assert(dist == sample_dist(
            p1,
            p2,
            -(diry as int),
            dirx as int,
            pm as int,
            xi as int,
            yi as int,
            kind,
        ));
    }
    let a = alpha_exec(dist);
    cells[idx] = a;
    proof {
        assert(cells@ =~= old(cells)@.update(idx as int, a));
        assert(visited@ =~= old(visited)@.update(idx as int, true));
        assert((cells@, visited@) == plot_spec(
            old(cells)@,
            old(visited)@,
            p1,
            p2,
            dirx as int,
            diry as int,
            pm as int,
            l as int,
            w as int,
            kind,
        ));
    }
}

/// Rasterizes the capsule footprint of one segment onto a fresh grid:
/// body samples on a regular lattice along the segment and across the
/// stroke width, then round end-cap samples beyond both endpoints. A
/// zero-length segment contributes nothing.
fn segment_cells(p1: Point, p2: Point) -> (g: Vec<i64>)
    requires
        in_range(p1),
        in_range(p2),
    ensures
        grid_wf(g@),
        g@ == segment_spec(p1, p2),
{
    let mut g: Vec<i64> = vec![0i64; 784];
    let mut visited: Vec<bool> = vec![false; 784];
    proof {
        assert(forall|t: int| 0 <= t < 784 ==> g@[t] == 0i64);
        assert(g@ =~= blank_cells());
        assert(visited@ =~= unvisited());
    }
    let dx = p2.x as i128 - p1.x as i128;
    let dy = p2.y as i128 - p1.y as i128;
    proof {
        assert(dx == p2.x - p1.x);
        assert(dy == p2.y - p1.y);
    }
    if dx == 0 && dy == 0 {
        proof {
            assert(segment_spec(p1, p2) == blank_cells());
        }
        return g;
    }
    proof {
        let c2: int = 2 * (COORD_LIMIT as int);
        assert(0 <= dx * dx <= c2 * c2 && 0 <= dy * dy <= c2 * c2 && 0 <= dx * dx + dy * dy <= 2 * (
        c2 * c2) && dx * dx <= dx * dx + dy * dy && dy * dy <= dx * dx + dy * dy && 1 <= dx * dx
            + dy * dy) by (nonlinear_arith)
            requires
                -c2 <= dx <= c2,
                -c2 <= dy <= c2,
                dx != 0 || dy != 0,
                c2 == 2 * (COORD_LIMIT as int),
        ;
    }
    let len2 = dx * dx + dy * dy;
    let root = isqrt(len2 as u128);
    proof {
        let c2: int = 2 * (COORD_LIMIT as int);
        assert(root <= 2 * c2 && root >= 1 && dx * dx <= root * root + 2 * root && dy * dy <= root
            * root + 2 * root) by (nonlinear_arith)
            requires
                root * root <= len2 < (root + 1) * (root + 1),
                0 <= root,
                0 < c2,
                c2 == 2 * (COORD_LIMIT as int),
                len2 <= 2 * (c2 * c2),
                1 <= len2,
                dx * dx <= len2,
                dy * dy <= len2,
        ;
        assert(-(root as int) <= dx <= root as int && -(root as int) <= dy <= root as int)
            by (nonlinear_arith)
            requires
                dx * dx <= (root as int) * (root as int) + 2 * (root as int),
                dy * dy <= (root as int) * (root as int) + 2 * (root as int),
                0 <= root,
        ;
    }
    let ell = root as i128;
    proof {
        crate::simplify::lemma_sqrt_unique(len2 as int, root as int);
        assert(ell == crate::simplify::sqrt_floor((p2.x - p1.x) * (p2.x - p1.x) + (p2.y - p1.y) * (
        p2.y - p1.y)));
        let lim: int = 4 * (COORD_LIMIT as int) * (SCALE as int);
        assert(-(ell * SCALE) <= dx * SCALE <= ell * SCALE && -(ell * SCALE) <= dy * SCALE <= ell
            * SCALE) by (nonlinear_arith)
            requires
                -ell <= dx <= ell,
                -ell <= dy <= ell,
                0 < SCALE,
        ;
        lemma_div_range((dx * SCALE as i128) as int, ell as int, SCALE as int);
        lemma_div_range((dy * SCALE as i128) as int, ell as int, SCALE as int);
        assert(ell as int * (SCALE as int) == SCALE as int * (ell as int)) by (nonlinear_arith);
    }
    let dirx = div_floor(dx * SCALE as i128, ell);
    let diry = div_floor(dy * SCALE as i128, ell);
    proof {
        assert(0 <= dirx * dirx <= 100_000_000 && 0 <= diry * diry <= 100_000_000 && 0 <= dirx
            * dirx + diry * diry <= 200_000_000) by (nonlinear_arith)
            requires
                -10_000 <= dirx <= 10_000,
                -10_000 <= diry <= 10_000,
        ;
    }
    let pm2 = dirx * dirx + diry * diry;
    let pmr = isqrt(pm2 as u128);
    proof {
        assert(pmr <= 20_000) by (nonlinear_arith)
            requires
                pmr * pmr <= 200_000_000,
                0 <= pmr,
        ;
        crate::simplify::lemma_sqrt_unique(pm2 as int, pmr as int);
    }
    let pm = pmr as i128;
    if pm == 0 {
        proof {
            assert(segment_spec(p1, p2) == blank_cells());
        }
        return g;
    }
    let lc = div_floor(ell, SAMPLE_STEP as i128);
    proof {
        crate::geom::lemma_floor_quotient_fits(ell as int, SAMPLE_STEP as int);
        vstd::arithmetic::div_mod::lemma_fundamental_div_mod(ell as int, SAMPLE_STEP as int);
        assert(segment_spec(p1, p2) == width_pass(
            blank_cells(),
            unvisited(),
            p1,
            p2,
            dirx as int,
            diry as int,
            pm as int,
            ell as int,
            lc as int,
            0,
        ).0);
    }
    let mut wi: i128 = 0;
    while wi <= 4
        invariant
            grid_wf(g@),
            visited@.len() == 784,
            in_range(p1),
            in_range(p2),
            -SCALE <= dirx <= SCALE,
            -SCALE <= diry <= SCALE,
            1 <= pm <= 20_000,
            0 <= lc,
            lc * SAMPLE_STEP <= ell <= 4 * (COORD_LIMIT as i128),
            0 <= wi <= 5,
            segment_spec(p1, p2) == width_pass(
                blank_cells(),
                unvisited(),
                p1,
                p2,
                dirx as int,
                diry as int,
                pm as int,
                ell as int,
                lc as int,
                0,
            ).0,
            width_pass(
                g@,
                visited@,
                p1,
                p2,
                dirx as int,
                diry as int,
                pm as int,
                ell as int,
                lc as int,
                wi as int,
            ) == width_pass(
                blank_cells(),
                unvisited(),
                p1,
                p2,
                dirx as int,
                diry as int,
                pm as int,
                ell as int,
                lc as int,
                0,
            ),
        decreases 5 - wi,
    {
        proof {
            assert(0 <= wi * (SAMPLE_STEP as i128) <= 24_000) by (nonlinear_arith)
                requires
                    0 <= wi <= 4,
                    SAMPLE_STEP == 6_000,
            ;
        }
        let w = -(HALF_WIDTH as i128) + wi * SAMPLE_STEP as i128;
        let ghost cw = g@;
        let ghost vw = visited@;
        let mut li: i128 = 0;
        while li <= lc
            invariant
                grid_wf(g@),
                visited@.len() == 784,
                in_range(p1),
                in_range(p2),
                -SCALE <= dirx <= SCALE,
                -SCALE <= diry <= SCALE,
                1 <= pm <= 20_000,
                0 <= lc,
                lc * SAMPLE_STEP <= ell <= 4 * (COORD_LIMIT as i128),
                -HALF_WIDTH <= w <= HALF_WIDTH,
                0 <= li <= lc + 1,
                body_pass(
                    g@,
                    visited@,
                    p1,
                    p2,
                    dirx as int,
                    diry as int,
                    pm as int,
                    w as int,
                    li as int,
                    lc as int,
                ) == body_pass(
                    cw,
                    vw,
                    p1,
                    p2,
                    dirx as int,
                    diry as int,
                    pm as int,
                    w as int,
                    0,
                    lc as int,
                ),
            decreases lc + 1 - li,
        {
            proof {
                assert(0 <= li * SAMPLE_STEP <= lc * SAMPLE_STEP) by (nonlinear_arith)
                    requires
                        0 <= li <= lc,
                        0 < SAMPLE_STEP,
                ;
            }
            plot_sample(&mut g, &mut visited, p1, p2, dirx, diry, pm, li * SAMPLE_STEP as i128, w, SampleKind::Body);
            li = li + 1;
        }
        let ghost cb = g@;
        let ghost vb = visited@;
        proof {
            assert((cb, vb) == body_pass(
                cw,
                vw,
                p1,
                p2,
                dirx as int,
                diry as int,
                pm as int,
                w as int,
                0,
                lc as int,
            ));
        }
        let mut di: i128 = 0;
        while di <= 2
            invariant
                grid_wf(g@),
                visited@.len() == 784,
                in_range(p1),
                in_range(p2),
                -SCALE <= dirx <= SCALE,
                -SCALE <= diry <= SCALE,
                1 <= pm <= 20_000,
                0 <= lc,
                lc * SAMPLE_STEP <= ell <= 4 * (COORD_LIMIT as i128),
                -HALF_WIDTH <= w <= HALF_WIDTH,
                0 <= di <= 3,
                cap_pass(
                    g@,
                    visited@,
                    p1,
                    p2,
                    dirx as int,
                    diry as int,
                    pm as int,
                    ell as int,
                    w as int,
                    di as int,
                ) == cap_pass(
                    cb,
                    vb,
                    p1,
                    p2,
                    dirx as int,
                    diry as int,
                    pm as int,
                    ell as int,
                    w as int,
                    0,
                ),
            decreases 3 - di,
        {
            proof {
                assert(0 <= di * (SAMPLE_STEP as i128) <= 12_000) by (nonlinear_arith)
                    requires
                        0 <= di <= 2,
                        SAMPLE_STEP == 6_000,
                ;
            }
            let d = di * SAMPLE_STEP as i128;
            plot_sample(&mut g, &mut visited, p1, p2, dirx, diry, pm, -d, w, SampleKind::CapStart);
            plot_sample(&mut g, &mut visited, p1, p2, dirx, diry, pm, ell + d, w, SampleKind::CapEnd);
            di = di + 1;
        }
        proof {
            assert((g@, visited@) == cap_pass(
                cb,
                vb,
                p1,
                p2,
                dirx as int,
                diry as int,
                pm as int,
                ell as int,
                w as int,
                0,
            ));
            assert(w == -(HALF_WIDTH as int) + wi * (SAMPLE_STEP as int));
            assert(width_pass(
                g@,
                visited@,
                p1,
                p2,
                dirx as int,
                diry as int,
                pm as int,
                ell as int,
                lc as int,
                wi + 1,
            ) == width_pass(
                cw,
                vw,
                p1,
                p2,
                dirx as int,
                diry as int,
                pm as int,
                ell as int,
                lc as int,
                wi as int,
            ));
        }
        wi = wi + 1;
    }
    proof {
        assert(width_pass(
            g@,
            visited@,
            p1,
            p2,
            dirx as int,
            diry as int,
            pm as int,
            ell as int,
            lc as int,
            wi as int,
        ) == (g@, visited@));
    }
    g
}

impl GestureDrawing {
    /// Renders the drawing onto a 28-by-28 intensity grid: each consecutive
    /// point pair is swept as a capsule onto its own grid, the per-segment
    /// grids are composited by per-pixel maximum, and the accumulated grid
    /// is transposed before being returned. A drawing with fewer than two
    /// points renders blank. Out-of-range samples are silently discarded,
    /// so unnormalized input cannot fail — it just falls outside the view.
    pub fn rasterized(&self) -> (g: Grid)
        requires
            all_in_range(self@),
        ensures
            grid_wf(g.cells@),
            g.cells@ == raster_of(self@),
            self@.len() < 2 ==> forall|t: int| 0 <= t < 784 ==> #[trigger] g.cells@[t] == 0,
    {
        let ghost s = self@;
        let mut acc: Vec<i64> = vec![0i64; 784];
        proof {
            assert(forall|t: int| 0 <= t < 784 ==> acc@[t] == 0i64);
            assert(acc@ =~= blank_cells());
        }
        let n = self.len();
        let mut i: usize = 1;
        while i < n
            invariant
                self@ == s,
                all_in_range(s),
                n == s.len(),
                1 <= i,
                grid_wf(acc@),
                s.len() < 2 ==> forall|t: int| 0 <= t < 784 ==> #[trigger] acc@[t] == 0,
                raster_acc(s, acc@, i as int) == raster_acc(s, blank_cells(), 1),
            decreases n - i,
        {
            let p1 = self.point_at(i - 1);
            let p2 = self.point_at(i);
            let ghost acc0 = acc@;
            let seg = segment_cells(p1, p2);
            composite_into(&mut acc, &seg);
            proof {
                assert(acc@ == max_cells(acc0, segment_spec(s[i - 1], s[i as int])));
                assert(raster_acc(s, acc@, i + 1) == raster_acc(s, acc0, i as int));
            }
            i = i + 1;
        }
        proof {
            assert(raster_acc(s, acc@, i as int) == acc@);
            assert(acc@ == raster_acc(s, blank_cells(), 1));
        }
        // Transpose: the returned grid reads the accumulation buffer with
        // its axes swapped.
        let mut out: Vec<i64> = Vec::new();
        let mut r: usize = 0;
        while r < 28
            invariant
                grid_wf(acc@),
                s.len() < 2 ==> forall|t: int| 0 <= t < 784 ==> #[trigger] acc@[t] == 0,
                r <= 28,
                out@.len() == 28 * r,
                forall|t: int|
                    0 <= t < out@.len() ==> #[trigger] out@[t] == acc@[28 * (t % 28) + t / 28],
            decreases 28 - r,
        {
            let mut c: usize = 0;
            while c < 28
                invariant
                    grid_wf(acc@),
                    r < 28,
                    c <= 28,
                    out@.len() == 28 * r + c,
                    forall|t: int|
                        0 <= t < out@.len() ==> #[trigger] out@[t] == acc@[28 * (t % 28) + t / 28],
                decreases 28 - c,
            {
                let v = acc[c * 28 + r];
                proof {
                    let t: int = 28 * r + c;
                    assert(t % 28 == c && t / 28 == r) by (nonlinear_arith)
                        requires
                            t == 28 * r + c,
                            0 <= c < 28,
                            0 <= r,
                    ;
                }
                out.push(v);
                c = c + 1;
            }
            r = r + 1;
        }
        proof {
            assert(grid_wf(out@));
            assert(out@ =~= transpose_cells(acc@));
            assert(out@ == raster_of(s));
            if s.len() < 2 {
                assert forall|t: int| 0 <= t < 784 implies #[trigger] out@[t] == 0 by {
                    let u = 28 * (t % 28) + t / 28;
                    assert(0 <= u < 784);
                    assert(acc@[u] == 0);
                }
            }
        }
        Grid { cells: out }
    }
}

} // verus!

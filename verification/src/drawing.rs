//! The gesture itself: an ordered, growable sequence of fixed-point points,
//! with the basic queries (length, last point, bounding box) and the
//! in-place mutations (append, clear). Transformations produce new
//! sequences and live in the neighbouring modules.

use crate::geom::{max_x, max_y, min_x, min_y, Point};
use vstd::prelude::*;

verus! {

/// An ordered polyline of 2-D points in stroke order. The sequence is the
/// whole state: the view of a drawing is the mathematical sequence of its
/// points.
pub struct GestureDrawing {
    points: Vec<Point>,
}

impl View for GestureDrawing {
    type V = Seq<Point>;

    closed spec fn view(&self) -> Seq<Point> {
        self.points@
    }
}

impl GestureDrawing {
    /// Creates an empty drawing.
    pub fn new() -> (r: GestureDrawing)
        ensures
            r@ == Seq::<Point>::empty(),
    {
        GestureDrawing { points: Vec::new() }
    }

    /// Builds a drawing from an already collected list of points.
    pub fn from_points(points: Vec<Point>) -> (r: GestureDrawing)
        ensures
            r@ == points@,
    {
        GestureDrawing { points }
    }

    /// Appends one point at the end of the stroke.
    pub fn add_point(&mut self, x: i64, y: i64)
        ensures
            final(self)@ == old(self)@.push(Point { x, y }),
    {
        self.points.push(Point { x, y });
    }

    /// Number of points recorded so far.
    pub fn len(&self) -> (r: usize)
        ensures
            r == self@.len(),
    {
        self.points.len()
    }

    /// The most recent point, or `None` for an empty drawing.
    pub fn last(&self) -> (r: Option<(i64, i64)>)
        ensures
            self@.len() == 0 ==> r is None,
            self@.len() > 0 ==> r == Some((self@.last().x, self@.last().y)),
    {
        if self.points.len() == 0 {
            None
        } else {
            let p = self.points[self.points.len() - 1];
            Some((p.x, p.y))
        }
    }

    /// The point at `i`.
    pub fn point_at(&self, i: usize) -> (r: Point)
        requires
            i < self@.len(),
        ensures
            r == self@[i as int],
    {
        self.points[i]
    }

    /// Removes every point.
    pub fn clear(&mut self)
        ensures
            final(self)@ == Seq::<Point>::empty(),
    {
        self.points.clear();
    }

    /// An independent duplicate: same points, separately owned.
    pub fn copy(&self) -> (r: GestureDrawing)
        ensures
            r@ == self@,
    {
        let mut points: Vec<Point> = Vec::new();
        let mut i: usize = 0;
        while i < self.points.len()
            invariant
                i <= self.points.len(),
                points@ =~= self.points@.take(i as int),
            decreases self.points.len() - i,
    {
            points.push(self.points[i]);
            proof {
                assert(points@ =~= self.points@.take(i + 1));
            }
            i = i + 1;
        }
        proof {
            assert(points@ =~= self.points@);
        }
        GestureDrawing { points }
    }

    /// The points as a plain vector, in stroke order.
    pub fn to_points(&self) -> (r: Vec<Point>)
        ensures
            r@ == self@,
    {
        let c = self.copy();
        c.points
    }

    /// Axis-aligned bounding box as (min corner, max corner), folded with
    /// min/max over all points. An empty drawing gives the degenerate box
    /// whose min corner is at `i64::MAX` and max corner at `i64::MIN` —
    /// the fixed-width stand-in for a fold that starts at plus and minus
    /// infinity.
    pub fn aabb(&self) -> (r: (Point, Point))
        ensures
            r.0.x == min_x(self@),
            r.0.y == min_y(self@),
            r.1.x == max_x(self@),
            r.1.y == max_y(self@),
    {
        let mut lo = Point { x: i64::MAX, y: i64::MAX };
        let mut hi = Point { x: i64::MIN, y: i64::MIN };
        let mut i: usize = 0;
        proof {
            assert(self@.take(0int) =~= Seq::<Point>::empty());
        }
        while i < self.points.len()
            invariant
                i <= self@.len(),
                self.points@ == self@,
                lo.x == min_x(self@.take(i as int)),
                lo.y == min_y(self@.take(i as int)),
                hi.x == max_x(self@.take(i as int)),
                hi.y == max_y(self@.take(i as int)),
            decreases self@.len() - i,
        {
            let p = self.points[i];
            proof {
                crate::geom::lemma_bbox_step(self@, i as int);
            }
            if p.x < lo.x {
                lo.x = p.x;
            }
            if p.y < lo.y {
                lo.y = p.y;
            }
            if p.x > hi.x {
                hi.x = p.x;
            }
            if p.y > hi.y {
                hi.y = p.y;
            }
            i = i + 1;
        }
        proof {
            assert(self@.take(self@.len() as int) =~= self@);
        }
        (lo, hi)
    }

    /// The bounding box flattened to `(min x, min y, max x, max y)`.
    pub fn get_aabb(&self) -> (r: (i64, i64, i64, i64))
        ensures
            r.0 == min_x(self@),
            r.1 == min_y(self@),
            r.2 == max_x(self@),
            r.3 == max_y(self@),
    {
        let (lo, hi) = self.aabb();
        (lo.x, lo.y, hi.x, hi.y)
    }
}

} // verus!

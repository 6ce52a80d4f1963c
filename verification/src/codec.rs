//! The serialization boundary: a drawing exported as a dense two-column
//! numeric array flattened row-major (row order = point order, column 0 = x,
//! column 1 = y), and the import of the same shape. Import rejects any
//! claimed column count other than two before touching the data.

use crate::drawing::GestureDrawing;
use crate::geom::Point;
use vstd::prelude::*;

verus! {

/// The one unrecoverable input error: the imported array does not have
/// exactly two columns. Carries the offending column count.
#[derive(Clone, Copy, Debug, PartialEq, Eq, Structural)]
pub struct ShapeViolation {
    pub columns: usize,
}

impl GestureDrawing {
    /// Exports the drawing as a flat row-major two-column array:
    /// `[x0, y0, x1, y1, ...]`.
    pub fn serialized(&self) -> (r: Vec<i64>)
        ensures
            r@.len() == 2 * self@.len(),
            forall|i: int|
                #![trigger self@[i]]
                0 <= i < self@.len() ==> r@[2 * i] == self@[i].x && r@[2 * i + 1] == self@[i].y,
    {
        let ghost s = self@;
        let mut out: Vec<i64> = Vec::new();
        let mut i: usize = 0;
        while i < self.len()
            invariant
                self@ == s,
                i <= s.len(),
                out@.len() == 2 * i,
                forall|j: int|
                    #![trigger s[j]]
                    0 <= j < i ==> out@[2 * j] == s[j].x && out@[2 * j + 1] == s[j].y,
            decreases s.len() - i,
        {
            let p = self.point_at(i);
            out.push(p.x);
            out.push(p.y);
            i = i + 1;
        }
        out
    }

    /// Imports a flat row-major array with the claimed column count back
    /// into a drawing. Exactly two columns are accepted; any other count is
    /// a shape violation and nothing is imported.
    pub fn deserialize(data: &Vec<i64>, cols: usize) -> (r: Result<
        GestureDrawing,
        ShapeViolation,
    >)
        requires
            0 < cols,
            data@.len() as int % (cols as int) == 0,
        ensures
            r is Ok <==> cols == 2,
            r matches Ok(g) ==> 2 * g@.len() == data@.len() && forall|i: int|
                #![trigger g@[i]]
                0 <= i < g@.len() ==> g@[i].x == data@[2 * i] && g@[i].y == data@[2 * i + 1],
            r matches Err(e) ==> e.columns == cols,
    {
        if cols != 2 {
            return Err(ShapeViolation { columns: cols });
        }
        let n = data.len() / 2;
        proof {
            vstd::arithmetic::div_mod::lemma_fundamental_div_mod(data@.len() as int, 2);
        }
        let mut points: Vec<Point> = Vec::new();
        let mut i: usize = 0;
        while i < n
            invariant
                2 * (n as int) == data@.len() as int,
                data@.len() <= usize::MAX,
                i <= n,
                points@.len() == i,
                forall|j: int|
                    #![trigger points@[j]]
                    0 <= j < i ==> points@[j].x == data@[2 * j] && points@[j].y == data@[2 * j + 1],
            decreases n - i,
        {
            let x = data[2 * i];
            let y = data[2 * i + 1];
            points.push(Point { x, y });
            i = i + 1;
        }
        Ok(GestureDrawing::from_points(points))
    }
}

/// Round-trip law: exporting a drawing and importing the flat array back
/// (with the true column count, two) yields a drawing with the same number
/// of points and the same coordinates in the same order.
pub proof fn lemma_serialize_round_trip(s: Seq<Point>, flat: Seq<i64>, t: Seq<Point>)
    requires
        flat.len() == 2 * s.len(),
        forall|i: int|
            #![trigger s[i]]
            0 <= i < s.len() ==> flat[2 * i] == s[i].x && flat[2 * i + 1] == s[i].y,
        2 * t.len() == flat.len(),
        forall|i: int|
            #![trigger t[i]]
            0 <= i < t.len() ==> t[i].x == flat[2 * i] && t[i].y == flat[2 * i + 1],
    ensures
        t == s,
{
    assert(t.len() == s.len());
    assert(forall|i: int| 0 <= i < s.len() ==> #[trigger] t[i] == s[i]) by {
        assert(forall|i: int|
            0 <= i < s.len() ==> #[trigger] t[i].x == s[i].x && t[i].y == s[i].y);
    }
    assert(t =~= s);
}

} // verus!

//! Axis-aligned rectangles on the terminal cell grid.

use vstd::prelude::*;

verus! {

/// A half-open rectangle of cells: columns `[x0, x1)`, rows `[y0, y1)`.
/// A rectangle with `x1 <= x0` or `y1 <= y0` covers no cell at all.
#[derive(Clone, Copy, PartialEq, Eq, Structural, Debug)]
pub struct Rect {
    pub x0: i64,
    pub y0: i64,
    pub x1: i64,
    pub y1: i64,
}

impl Rect {
    /// The rectangle covers no cell.
    pub open spec fn is_empty(self) -> bool {
        self.x1 <= self.x0 || self.y1 <= self.y0
    }

    /// The cell at column `x`, row `y` lies inside the rectangle.
    pub open spec fn contains(self, x: int, y: int) -> bool {
        self.x0 <= x < self.x1 && self.y0 <= y < self.y1
    }

    /// Some cell lies in both rectangles.
    pub open spec fn overlaps(self, other: Rect) -> bool {
        exists|x: int, y: int| self.contains(x, y) && other.contains(x, y)
    }
}

/// Decides whether some cell lies in both rectangles.
pub fn rects_overlap(a: &Rect, b: &Rect) -> (r: bool)
    ensures
        r == a.overlaps(*b),
{
    let lox: i64 = if a.x0 >= b.x0 { a.x0 } else { b.x0 };
    let hix: i64 = if a.x1 <= b.x1 { a.x1 } else { b.x1 };
    let loy: i64 = if a.y0 >= b.y0 { a.y0 } else { b.y0 };
    let hiy: i64 = if a.y1 <= b.y1 { a.y1 } else { b.y1 };
    let r = lox < hix && loy < hiy;
    proof {
        if r {
            assert(a.contains(lox as int, loy as int));
            assert(b.contains(lox as int, loy as int));
        }
        if a.overlaps(*b) {
            let (x, y) = choose|x: int, y: int| a.contains(x, y) && b.contains(x, y);
            assert(lox <= x < hix);
            assert(loy <= y < hiy);
        }
    }
    r
}

/// An overlap seen from one side is an overlap seen from the other.
pub proof fn lemma_overlaps_symmetric(a: Rect, b: Rect)
    ensures
        a.overlaps(b) == b.overlaps(a),
{
    if a.overlaps(b) {
        let (x, y) = choose|x: int, y: int| a.contains(x, y) && b.contains(x, y);
        assert(b.contains(x, y) && a.contains(x, y));
    }
    if b.overlaps(a) {
        let (x, y) = choose|x: int, y: int| b.contains(x, y) && a.contains(x, y);
        assert(a.contains(x, y) && b.contains(x, y));
    }
}

} // verus!

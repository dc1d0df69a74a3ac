//! The in-memory model of what is currently on the physical terminal.

use vstd::prelude::*;

use crate::rect::Rect;
use crate::style::Colors;
use crate::style::Style;
use crate::style::spec_no_attrs;
use crate::sprite::blank_glyph;

verus! {

/// One terminal cell: a character and its style.
#[derive(Clone, Copy, PartialEq, Eq, Structural, Debug)]
pub struct Cell {
    pub glyph: char,
    pub style: Style,
}

/// The cell a clear resets to: a blank glyph over the window's colors.
pub open spec fn spec_blank_cell(colors: Colors) -> Cell {
    Cell { glyph: blank_glyph(), style: Style { colors, attributes: spec_no_attrs() } }
}

/// Builds the cell a clear resets to under the given window colors.
pub fn blank_cell(colors: Colors) -> (c: Cell)
    ensures
        c == spec_blank_cell(colors),
{
    Cell { glyph: ' ', style: Style { colors, attributes: crate::style::Attributes::none() } }
}

/// The authoritative in-memory copy of the terminal's contents: a dense
/// `width` by `height` grid of cells in row-major order, plus the last-known
/// window colors.
#[verifier::ext_equal]
pub struct ScreenBuffer {
    pub width: u16,
    pub height: u16,
    pub colors: Colors,
    pub cells: Vec<Cell>,
}

impl ScreenBuffer {
    /// The stored cells exactly fill the grid.
    pub open spec fn wf(self) -> bool {
        self.cells@.len() == self.width as int * self.height as int
    }

    /// `(x, y)` names a cell of the grid.
    pub open spec fn in_bounds(self, x: int, y: int) -> bool {
        0 <= x < self.width as int && 0 <= y < self.height as int
    }

    /// The cell at column `x`, row `y`.
    pub open spec fn at(self, x: int, y: int) -> Cell {
        self.cells@[y * self.width as int + x]
    }

    /// A fresh screen: every cell blank over the given window colors.
    pub fn new(width: u16, height: u16, colors: Colors) -> (s: ScreenBuffer)
        ensures
            s.wf(),
            s.width == width,
            s.height == height,
            s.colors == colors,
            forall|x: int, y: int| s.in_bounds(x, y) ==> s.at(x, y) == spec_blank_cell(colors),
    {
        proof {
            lemma_grid_total(width as int, height as int);
        }
        let total: usize = (width as usize) * (height as usize);
        let blank = blank_cell(colors);
        let mut cells: Vec<Cell> = Vec::new();
        let mut i: usize = 0;
        while i < total
            invariant
                0 <= i <= total,
                cells@.len() == i,
                forall|k: int| 0 <= k < i ==> cells@[k] == spec_blank_cell(colors),
                blank == spec_blank_cell(colors),
            decreases total - i,
        {
            cells.push(blank);
            i += 1;
        }
        let s = ScreenBuffer { width, height, colors, cells };
        proof {
            assert forall|x: int, y: int| s.in_bounds(x, y) implies s.at(x, y) == spec_blank_cell(
                colors,
            ) by {
                lemma_grid_index_bounds(width as int, height as int, x, y);
            }
        }
        s
    }

    /// Reads the cell at column `x`, row `y`.
    pub fn cell(&self, x: usize, y: usize) -> (c: Cell)
        requires
            self.wf(),
            self.in_bounds(x as int, y as int),
        ensures
            c == self.at(x as int, y as int),
    {
        let n = self.cells.len();
        proof {
            lemma_grid_index_bounds(self.width as int, self.height as int, x as int, y as int);
        }
        self.cells[y * (self.width as usize) + x]
    }

    /// Overwrites the cell at column `x`, row `y`, leaving every other cell
    /// as it was.
    pub fn set_cell(&mut self, x: usize, y: usize, c: Cell)
        requires
            old(self).wf(),
            old(self).in_bounds(x as int, y as int),
        ensures
            final(self).wf(),
            final(self).width == old(self).width,
            final(self).height == old(self).height,
            final(self).colors == old(self).colors,
            final(self).at(x as int, y as int) == c,
            forall|xx: int, yy: int|
                final(self).in_bounds(xx, yy) && !(xx == x as int && yy == y as int)
                    ==> final(self).at(xx, yy) == old(self).at(xx, yy),
    {
        let n = self.cells.len();
        proof {
            lemma_grid_index_bounds(self.width as int, self.height as int, x as int, y as int);
        }
        let idx: usize = y * (self.width as usize) + x;
        self.cells[idx] = c;
        proof {
            let s = *self;
            let o = *old(self);
            assert forall|xx: int, yy: int|
                s.in_bounds(xx, yy) && !(xx == x as int && yy == y as int) implies s.at(xx, yy)
                == o.at(xx, yy) by {
                lemma_grid_index_bounds(s.width as int, s.height as int, xx, yy);
                lemma_grid_index_injective(s.width as int, x as int, y as int, xx, yy);
            }
        }
    }

    /// Fills columns `[xlo, xhi)` of row `y` with the cell `c`, leaving all
    /// other cells as they were.
    pub fn fill_row(&mut self, y: usize, xlo: usize, xhi: usize, c: Cell)
        requires
            old(self).wf(),
            (y as int) < old(self).height as int,
            xlo <= xhi,
            xhi as int <= old(self).width as int,
        ensures
            final(self).wf(),
            final(self).width == old(self).width,
            final(self).height == old(self).height,
            final(self).colors == old(self).colors,
            forall|cx: int, cy: int|
                final(self).in_bounds(cx, cy) && cy == y as int && xlo as int <= cx < xhi as int
                    ==> final(self).at(cx, cy) == c,
            forall|cx: int, cy: int|
                final(self).in_bounds(cx, cy) && !(cy == y as int && xlo as int <= cx
                    < xhi as int) ==> final(self).at(cx, cy) == old(self).at(cx, cy),
    {
        let ghost orig = *self;
        let mut x: usize = xlo;
        while x < xhi
            invariant
                xlo <= x <= xhi,
                xhi as int <= self.width as int,
                (y as int) < self.height as int,
                self.wf(),
                self.width == orig.width,
                self.height == orig.height,
                self.colors == orig.colors,
                forall|cx: int, cy: int|
                    self.in_bounds(cx, cy) && cy == y as int && xlo as int <= cx < x as int
                        ==> self.at(cx, cy) == c,
                forall|cx: int, cy: int|
                    self.in_bounds(cx, cy) && !(cy == y as int && xlo as int <= cx < x as int)
                        ==> self.at(cx, cy) == orig.at(cx, cy),
            decreases xhi - x,
        {
            self.set_cell(x, y, c);
            x += 1;
        }
    }

    /// Resets every cell inside `r` (clipped to the screen) to the blank
    /// cell over the current window colors; every other cell is untouched.
    pub fn clear_rect(&mut self, r: &Rect)
        requires
            old(self).wf(),
        ensures
            final(self).wf(),
            final(self).width == old(self).width,
            final(self).height == old(self).height,
            final(self).colors == old(self).colors,
            forall|x: int, y: int|
                final(self).in_bounds(x, y) && r.contains(x, y)
                    ==> final(self).at(x, y) == spec_blank_cell(old(self).colors),
            forall|x: int, y: int|
                final(self).in_bounds(x, y) && !r.contains(x, y)
                    ==> final(self).at(x, y) == old(self).at(x, y),
    {
        let ghost orig = *self;
        let blank = blank_cell(self.colors);
        let xlo: i64 = if r.x0 > 0 { r.x0 } else { 0 };
        let xhi: i64 = if r.x1 < self.width as i64 { r.x1 } else { self.width as i64 };
        let ylo: i64 = if r.y0 > 0 { r.y0 } else { 0 };
        let yhi: i64 = if r.y1 < self.height as i64 { r.y1 } else { self.height as i64 };
        if xlo >= xhi || ylo >= yhi {
            return;
        }
        let mut y: i64 = ylo;
        while y < yhi
            invariant
                ylo <= y <= yhi,
                0 <= xlo < xhi <= self.width as int,
                0 <= ylo < yhi <= self.height as int,
                forall|cx: int, cy: int|
                    self.in_bounds(cx, cy) && r.contains(cx, cy) <==> xlo as int <= cx
                        < xhi as int && ylo as int <= cy < yhi as int,
                self.wf(),
                self.width == orig.width,
                self.height == orig.height,
                self.colors == orig.colors,
                blank == spec_blank_cell(orig.colors),
                forall|cx: int, cy: int|
                    self.in_bounds(cx, cy) && r.contains(cx, cy) && cy < y as int ==> self.at(
                        cx,
                        cy,
                    ) == spec_blank_cell(orig.colors),
                forall|cx: int, cy: int|
                    self.in_bounds(cx, cy) && !(r.contains(cx, cy) && cy < y as int) ==> self.at(
                        cx,
                        cy,
                    ) == orig.at(cx, cy),
            decreases yhi - y,
        {
            self.fill_row(y as usize, xlo as usize, xhi as usize, blank);
            y += 1;
        }
    }
}

/// A full grid of terminal cells fits comfortably in memory.
pub proof fn lemma_grid_total(w: int, h: int)
    by (nonlinear_arith)
    requires
        0 <= w <= 0xffff,
        0 <= h <= 0xffff,
    ensures
        0 <= w * h <= 0xffff * 0xffff,
{
}

/// Row-major indexing stays inside the cell vector.
pub proof fn lemma_grid_index_bounds(w: int, h: int, x: int, y: int)
    by (nonlinear_arith)
    requires
        0 <= x < w,
        0 <= y < h,
    ensures
        0 <= y * w + x < w * h,
{
}

/// Distinct grid coordinates use distinct row-major indices.
pub proof fn lemma_grid_index_injective(w: int, x: int, y: int, x2: int, y2: int)
    by (nonlinear_arith)
    requires
        0 <= x < w,
        0 <= x2 < w,
        0 <= y,
        0 <= y2,
        !(x == x2 && y == y2),
    ensures
        y * w + x != y2 * w + x2,
{
}

} // verus!

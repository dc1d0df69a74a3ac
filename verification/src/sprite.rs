//! Immutable glyph buffers and the style grids paired with them.

use vstd::prelude::*;

use crate::style::Style;
use crate::style::spec_plain_style;

verus! {

/// An immutable 2-D grid of characters.  `height` is the number of rows and
/// `width` the length of the longest row; shorter rows pad with blank cells.
pub struct Sprite {
    pub rows: Vec<Vec<char>>,
    pub width: u16,
    pub height: u16,
}

/// The blank glyph: a transparent entity lets the layer beneath show through
/// wherever its glyph is blank.
pub open spec fn blank_glyph() -> char {
    ' '
}

impl Sprite {
    /// The recorded dimensions agree with the stored rows: `height` counts
    /// the rows and `width` is the length of the longest one.
    pub open spec fn wf(self) -> bool {
        &&& self.height as int == self.rows@.len()
        &&& forall|r: int|
            0 <= r < self.rows@.len() ==> (#[trigger] self.rows@[r])@.len() <= self.width as int
        &&& (self.width == 0 || exists|r: int|
            0 <= r < self.rows@.len() && (#[trigger] self.rows@[r])@.len() == self.width as int)
    }

    /// The character at row `r`, column `c`; blank outside the stored rows,
    /// which also pads short rows out to the full width.
    pub open spec fn glyph_at(self, r: int, c: int) -> char {
        if 0 <= r < self.rows@.len() && 0 <= c < self.rows@[r]@.len() {
            self.rows@[r]@[c]
        } else {
            blank_glyph()
        }
    }

    /// Every cell of the grid is blank.
    pub open spec fn all_blank(self) -> bool {
        forall|r: int, c: int| self.glyph_at(r, c) == blank_glyph()
    }

    /// Checks that the recorded dimensions agree with the stored rows.
    pub fn check_wf(&self) -> (r: bool)
        ensures
            r == self.wf(),
    {
        if self.rows.len() != self.height as usize {
            return false;
        }
        let mut max: usize = 0;
        let ghost mut witness: int = 0;
        let mut i: usize = 0;
        while i < self.rows.len()
            invariant
                0 <= i <= self.rows@.len(),
                forall|k: int| 0 <= k < i ==> (#[trigger] self.rows@[k])@.len() <= max,
                max == 0 || (0 <= witness < i && self.rows@[witness]@.len() == max),
            decreases self.rows@.len() - i,
        {
            let l = self.rows[i].len();
            if l > max {
                max = l;
                proof {
                    witness = i as int;
                }
            }
            i += 1;
        }
        let ok = max == self.width as usize;
        proof {
            if ok {
                if self.width > 0 {
                    assert(self.rows@[witness]@.len() == self.width as int);
                }
            } else {
                if self.wf() {
                    if self.width == 0 {
                        assert(self.rows@[witness]@.len() == max);
                    } else {
                        let k = choose|k: int|
                            0 <= k < self.rows@.len() && (#[trigger] self.rows@[k])@.len()
                                == self.width as int;
                        assert(self.rows@[k]@.len() <= max);
                        assert(self.rows@[witness]@.len() <= self.width as int);
                    }
                }
            }
        }
        ok
    }

    /// Builds a glyph buffer from its rows, computing the dimensions.
    pub fn from_rows(rows: Vec<Vec<char>>) -> (s: Sprite)
        requires
            rows@.len() <= u16::MAX,
            forall|r: int| 0 <= r < rows@.len() ==> (#[trigger] rows@[r])@.len() <= u16::MAX,
        ensures
            s.wf(),
            s.rows@ == rows@,
            s.height as int == rows@.len(),
    {
        let height: u16 = rows.len() as u16;
        let mut width: u16 = 0;
        let mut r: usize = 0;
        while r < rows.len()
            invariant
                0 <= r <= rows@.len(),
                forall|k: int| 0 <= k < rows@.len() ==> (#[trigger] rows@[k])@.len() <= u16::MAX,
                forall|k: int| 0 <= k < r ==> (#[trigger] rows@[k])@.len() <= width as int,
                width == 0 || exists|k: int|
                    0 <= k < r && (#[trigger] rows@[k])@.len() == width as int,
            decreases rows@.len() - r,
        {
            let l = rows[r].len();
            if l > width as usize {
                width = l as u16;
            }
            r += 1;
        }
        let s = Sprite { rows, width, height };
        proof {
            assert(s.height as int == s.rows@.len());
            assert(forall|k: int|
                0 <= k < s.rows@.len() ==> (#[trigger] s.rows@[k])@.len() <= s.width as int);
            assert(s.width == 0 || exists|k: int|
                0 <= k < s.rows@.len() && (#[trigger] s.rows@[k])@.len() == s.width as int);
            assert(s.wf());
        }
        s
    }

    /// A `width` by `height` grid filled with one character.  A grid with no
    /// rows has width zero whatever was asked for.
    pub fn filled(glyph: char, width: u16, height: u16) -> (s: Sprite)
        ensures
            s.wf(),
            s.width == (if height == 0 { 0u16 } else { width }),
            s.height == height,
            forall|r: int, c: int|
                0 <= r < height as int && 0 <= c < width as int ==> s.glyph_at(r, c) == glyph,
    {
        let mut rows: Vec<Vec<char>> = Vec::new();
        let mut r: usize = 0;
        while r < height as usize
            invariant
                0 <= r <= height as int,
                rows@.len() == r,
                forall|k: int| 0 <= k < r ==> (#[trigger] rows@[k])@.len() == width as int,
                forall|k: int, c: int| #![trigger rows@[k]@[c]]
                    0 <= k < r && 0 <= c < width as int ==> rows@[k]@[c] == glyph,
            decreases height as int - r,
        {
            let mut row: Vec<char> = Vec::new();
            let mut c: usize = 0;
            while c < width as usize
                invariant
                    0 <= c <= width as int,
                    row@.len() == c,
                    forall|j: int| 0 <= j < c ==> row@[j] == glyph,
                decreases width as int - c,
            {
                row.push(glyph);
                c += 1;
            }
            rows.push(row);
            r += 1;
        }
        let eff_width: u16 = if height == 0 { 0 } else { width };
        if eff_width > 0 {
            proof {
                assert(rows@[0]@.len() == width as int);
            }
        }
        Sprite { rows, width: eff_width, height }
    }
}

/// An immutable 2-D grid of per-cell styles, paired with a glyph buffer of
/// the same dimensions at render time.
pub struct StyleMap {
    pub rows: Vec<Vec<Style>>,
}

impl StyleMap {
    /// The style at row `r`, column `c`; the plain style outside the grid.
    pub open spec fn style_at(self, r: int, c: int) -> Style {
        if 0 <= r < self.rows@.len() && 0 <= c < self.rows@[r]@.len() {
            self.rows@[r]@[c]
        } else {
            spec_plain_style()
        }
    }

    /// The grid's dimensions agree with the glyph buffer's: one style row per
    /// glyph row, each spanning the full padded width.
    pub open spec fn matches_dims(self, sp: Sprite) -> bool {
        &&& self.rows@.len() == sp.rows@.len()
        &&& forall|r: int|
            0 <= r < self.rows@.len() ==> (#[trigger] self.rows@[r])@.len() == sp.width as int
    }

    /// Checks that this style grid's dimensions match the glyph buffer's.
    pub fn matches(&self, sp: &Sprite) -> (r: bool)
        ensures
            r == self.matches_dims(*sp),
    {
        if self.rows.len() != sp.rows.len() {
            return false;
        }
        let mut i: usize = 0;
        while i < self.rows.len()
            invariant
                0 <= i <= self.rows@.len(),
                self.rows@.len() == sp.rows@.len(),
                forall|k: int|
                    0 <= k < i ==> (#[trigger] self.rows@[k])@.len() == sp.width as int,
            decreases self.rows@.len() - i,
        {
            if self.rows[i].len() != sp.width as usize {
                return false;
            }
            i += 1;
        }
        true
    }

    /// A `width` by `height` grid filled with one style.
    pub fn uniform(style: Style, width: u16, height: u16) -> (m: StyleMap)
        ensures
            m.rows@.len() == height as int,
            forall|r: int|
                0 <= r < height as int ==> (#[trigger] m.rows@[r])@.len() == width as int,
            forall|r: int, c: int|
                0 <= r < height as int && 0 <= c < width as int ==> m.style_at(r, c) == style,
    {
        let mut rows: Vec<Vec<Style>> = Vec::new();
        let mut r: usize = 0;
        while r < height as usize
            invariant
                0 <= r <= height as int,
                rows@.len() == r,
                forall|k: int| 0 <= k < r ==> (#[trigger] rows@[k])@.len() == width as int,
                forall|k: int, c: int| #![trigger rows@[k]@[c]]
                    0 <= k < r && 0 <= c < width as int ==> rows@[k]@[c] == style,
            decreases height as int - r,
        {
            let mut row: Vec<Style> = Vec::new();
            let mut c: usize = 0;
            while c < width as usize
                invariant
                    0 <= c <= width as int,
                    row@.len() == c,
                    forall|j: int| 0 <= j < c ==> row@[j] == style,
                decreases width as int - c,
            {
                row.push(style);
                c += 1;
            }
            rows.push(row);
            r += 1;
        }
        StyleMap { rows }
    }
}

} // verus!

//! Per-cell visual styling: colors and text attributes.

use vstd::prelude::*;

verus! {

/// A terminal color.  `Reset` stands for the terminal's own default.
#[derive(Clone, Copy, PartialEq, Eq, Structural, Debug)]
pub enum Color {
    Reset,
    Black,
    DarkGrey,
    Red,
    DarkRed,
    Green,
    DarkGreen,
    Yellow,
    DarkYellow,
    Blue,
    DarkBlue,
    Magenta,
    DarkMagenta,
    Cyan,
    DarkCyan,
    White,
    Grey,
    Rgb { r: u8, g: u8, b: u8 },
    AnsiValue(u8),
}

/// Text attributes that can be set on a cell independently of its colors.
#[derive(Clone, Copy, PartialEq, Eq, Structural, Debug)]
pub struct Attributes {
    pub bold: bool,
    pub underline: bool,
    pub reverse: bool,
}

/// The attribute set with nothing switched on.
pub open spec fn spec_no_attrs() -> Attributes {
    Attributes { bold: false, underline: false, reverse: false }
}

impl Attributes {
    /// No attribute switched on.
    pub fn none() -> (r: Attributes)
        ensures
            r == spec_no_attrs(),
    {
        Attributes { bold: false, underline: false, reverse: false }
    }
}

/// A foreground/background color pair.
#[derive(Clone, Copy, PartialEq, Eq, Structural, Debug)]
pub struct Colors {
    pub foreground: Color,
    pub background: Color,
}

/// The terminal's own default color pair.
pub open spec fn spec_term_colors() -> Colors {
    Colors { foreground: Color::Reset, background: Color::Reset }
}

impl Colors {
    /// Both foreground and background left at the terminal default.
    pub fn term_colors() -> (r: Colors)
        ensures
            r == spec_term_colors(),
    {
        Colors { foreground: Color::Reset, background: Color::Reset }
    }
}

/// The full style of one cell: a color pair plus attributes.
#[derive(Clone, Copy, PartialEq, Eq, Structural, Debug)]
pub struct Style {
    pub colors: Colors,
    pub attributes: Attributes,
}

/// The style of an untouched cell: default colors, no attributes.
pub open spec fn spec_plain_style() -> Style {
    Style { colors: spec_term_colors(), attributes: spec_no_attrs() }
}

impl Style {
    /// Default colors and no attributes.
    pub fn plain() -> (r: Style)
        ensures
            r == spec_plain_style(),
    {
        Style { colors: Colors::term_colors(), attributes: Attributes::none() }
    }

    /// A style with the given colors and no attributes.
    pub fn with_colors(colors: Colors) -> (r: Style)
        ensures
            r == (Style { colors, attributes: spec_no_attrs() }),
    {
        Style { colors, attributes: Attributes::none() }
    }
}

} // verus!

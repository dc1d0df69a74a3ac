//! Scene entities as the render core sees them, and their previous-frame
//! snapshots.

use vstd::prelude::*;

use crate::rect::Rect;

verus! {

/// Screen placement of an entity: `(x, y)` is the top-left corner of its
/// bounding box, `z` is the paint depth (higher paints later, so on top).
#[derive(Clone, Copy, PartialEq, Eq, Structural, Debug)]
pub struct Position {
    pub x: i32,
    pub y: i32,
    pub z: i32,
}

/// Whether blank glyph cells let lower layers show through.
#[derive(Clone, Copy, PartialEq, Eq, Structural, Debug)]
pub enum Visibility {
    /// Every cell of the bounding box overwrites what is beneath it.
    Opaque,
    /// Blank glyph cells leave the cell beneath untouched.
    Transparent,
}

/// One scene object for a single frame: a glyph-buffer handle, a style-grid
/// handle, a placement and a transparency flag.  Handles are indices into the
/// asset tables handed to each phase.
#[derive(Clone, Copy, PartialEq, Eq, Structural, Debug)]
pub struct PlacedEntity {
    pub id: u64,
    pub sprite: usize,
    pub style: usize,
    pub position: Position,
    pub visibility: Visibility,
}

/// An entity's state as it was at the end of the previous rendered frame.
/// The glyph buffer's dimensions are recorded so the old bounding box stays
/// well defined even if the asset is later replaced or despawned.
#[derive(Clone, Copy, PartialEq, Eq, Structural, Debug)]
pub struct Snapshot {
    pub position: Position,
    pub sprite: usize,
    pub style: usize,
    pub visibility: Visibility,
    pub width: u16,
    pub height: u16,
}

/// The bounding box of a `w` by `h` glyph grid placed at `pos`.
pub open spec fn spec_bbox(pos: Position, w: int, h: int) -> Rect {
    Rect {
        x0: pos.x as i64,
        y0: pos.y as i64,
        x1: (pos.x + w) as i64,
        y1: (pos.y + h) as i64,
    }
}

/// The bounding box recorded in a snapshot.
pub open spec fn spec_snap_bbox(s: Snapshot) -> Rect {
    spec_bbox(s.position, s.width as int, s.height as int)
}

/// Computes the bounding box of a `w` by `h` glyph grid placed at `pos`.
pub fn bbox(pos: Position, w: u16, h: u16) -> (r: Rect)
    ensures
        r == spec_bbox(pos, w as int, h as int),
{
    Rect {
        x0: pos.x as i64,
        y0: pos.y as i64,
        x1: pos.x as i64 + w as i64,
        y1: pos.y as i64 + h as i64,
    }
}

/// The snapshot that records `e` as it stands now, with its glyph buffer's
/// current dimensions.
pub open spec fn spec_snapshot_of(e: PlacedEntity, w: u16, h: u16) -> Snapshot {
    Snapshot {
        position: e.position,
        sprite: e.sprite,
        style: e.style,
        visibility: e.visibility,
        width: w,
        height: h,
    }
}

/// Builds the snapshot of `e` with glyph dimensions `w` by `h`.
pub fn snapshot_of(e: &PlacedEntity, w: u16, h: u16) -> (s: Snapshot)
    ensures
        s == spec_snapshot_of(*e, w, h),
{
    Snapshot {
        position: e.position,
        sprite: e.sprite,
        style: e.style,
        visibility: e.visibility,
        width: w,
        height: h,
    }
}

/// A snapshot agrees with an entity on everything the diff compares:
/// placement, both handles and the transparency flag.
pub open spec fn snap_matches(s: Snapshot, e: PlacedEntity) -> bool {
    s.position == e.position && s.sprite == e.sprite && s.style == e.style
        && s.visibility == e.visibility
}

} // verus!

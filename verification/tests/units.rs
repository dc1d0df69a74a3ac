//! Unit tests for the building blocks: glyph buffers, style grids,
//! rectangles, the screen buffer and the frame history store.

use termdraw::entity::{bbox, snapshot_of, PlacedEntity, Position, Visibility};
use termdraw::history::FrameHistoryStore;
use termdraw::rect::{rects_overlap, Rect};
use termdraw::screen::{blank_cell, ScreenBuffer};
use termdraw::sprite::{Sprite, StyleMap};
use termdraw::style::{Attributes, Color, Colors, Style};

fn chars(s: &str) -> Vec<char> {
    s.chars().collect()
}

#[test]
fn sprite_dimensions_follow_longest_row() {
    let sp = Sprite::from_rows(vec![chars("ab"), chars("abcd"), chars("a")]);
    assert_eq!(sp.width, 4);
    assert_eq!(sp.height, 3);
}

#[test]
fn sprite_filled_has_uniform_cells() {
    let sp = Sprite::filled('#', 3, 2);
    assert_eq!(sp.width, 3);
    assert_eq!(sp.height, 2);
    for row in &sp.rows {
        assert_eq!(row.len(), 3);
        for c in row {
            assert_eq!(*c, '#');
        }
    }
}

#[test]
fn sprite_filled_zero_rows_has_zero_width() {
    let sp = Sprite::filled('#', 5, 0);
    assert_eq!(sp.width, 0);
    assert_eq!(sp.height, 0);
}

#[test]
fn check_wf_detects_tampered_dimensions() {
    let good = Sprite::from_rows(vec![chars("ab"), chars("abcd")]);
    assert!(good.check_wf());
    let bad = Sprite { rows: vec![chars("ab")], width: 9, height: 1 };
    assert!(!bad.check_wf());
    let bad2 = Sprite { rows: vec![chars("ab")], width: 2, height: 3 };
    assert!(!bad2.check_wf());
}

#[test]
fn stylemap_matches_checks_dimensions() {
    let sp = Sprite::from_rows(vec![chars("ab"), chars("abcd")]);
    let good = StyleMap::uniform(Style::plain(), 4, 2);
    let bad_rows = StyleMap::uniform(Style::plain(), 4, 3);
    let bad_cols = StyleMap::uniform(Style::plain(), 2, 2);
    assert!(good.matches(&sp));
    assert!(!bad_rows.matches(&sp));
    assert!(!bad_cols.matches(&sp));
}

#[test]
fn rect_overlap_basics() {
    let a = Rect { x0: 0, y0: 0, x1: 3, y1: 3 };
    let b = Rect { x0: 2, y0: 2, x1: 5, y1: 5 };
    let c = Rect { x0: 3, y0: 0, x1: 6, y1: 3 };
    assert!(rects_overlap(&a, &b));
    assert!(rects_overlap(&b, &a));
    assert!(!rects_overlap(&a, &c));
}

#[test]
fn zero_size_rect_never_overlaps() {
    let empty = Rect { x0: 1, y0: 1, x1: 1, y1: 4 };
    let big = Rect { x0: 0, y0: 0, x1: 10, y1: 10 };
    assert!(!rects_overlap(&empty, &big));
    assert!(!rects_overlap(&big, &empty));
}

#[test]
fn bbox_from_placement_and_dims() {
    let pos = Position { x: 5, y: 5, z: 0 };
    let r = bbox(pos, 3, 3);
    assert_eq!(r, Rect { x0: 5, y0: 5, x1: 8, y1: 8 });
}

#[test]
fn screen_starts_blank() {
    let colors = Colors::term_colors();
    let s = ScreenBuffer::new(4, 3, colors);
    assert_eq!(s.cells.len(), 12);
    let blank = blank_cell(colors);
    for c in &s.cells {
        assert_eq!(*c, blank);
    }
}

#[test]
fn history_observe_seed_commit_forget() {
    let mut h = FrameHistoryStore::new();
    let e = PlacedEntity {
        id: 7,
        sprite: 0,
        style: 0,
        position: Position { x: 1, y: 2, z: 3 },
        visibility: Visibility::Opaque,
    };
    assert!(h.observe(7).is_none());
    let snap = snapshot_of(&e, 2, 2);
    h.seed(7, snap);
    assert_eq!(h.observe(7), Some(snap));
    let moved = PlacedEntity { position: Position { x: 4, y: 2, z: 3 }, ..e };
    let snap2 = snapshot_of(&moved, 2, 2);
    h.commit(7, snap2);
    assert_eq!(h.observe(7), Some(snap2));
    let last_box = h.forget(7);
    assert_eq!(last_box, Rect { x0: 4, y0: 2, x1: 6, y1: 4 });
    assert!(h.observe(7).is_none());
    assert_eq!(h.len(), 0);
}

#[test]
fn styles_and_colors_compose() {
    let colors = Colors { foreground: Color::Red, background: Color::Rgb { r: 1, g: 2, b: 3 } };
    let style = Style::with_colors(colors);
    assert_eq!(style.colors, colors);
    assert_eq!(style.attributes, Attributes::none());
    assert_eq!(Style::plain().colors, Colors::term_colors());
}

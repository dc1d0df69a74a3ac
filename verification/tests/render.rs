//! End-to-end rendering tests: incremental redraw, overlap propagation,
//! clears, transparency, despawn and depth order.

use termdraw::compositor::{CellWrite, RenderError};
use termdraw::entity::{PlacedEntity, Position, Visibility};
use termdraw::frame::{render_frame, FrameResult};
use termdraw::history::FrameHistoryStore;
use termdraw::rect::Rect;
use termdraw::screen::{blank_cell, Cell, ScreenBuffer};
use termdraw::sprite::{Sprite, StyleMap};
use termdraw::style::{Color, Colors, Style};

fn chars(s: &str) -> Vec<char> {
    s.chars().collect()
}

fn cell_at(screen: &ScreenBuffer, x: usize, y: usize) -> Cell {
    screen.cells[y * screen.width as usize + x]
}

struct World {
    screen: ScreenBuffer,
    history: FrameHistoryStore,
    sprites: Vec<Sprite>,
    styles: Vec<StyleMap>,
    colors: Colors,
}

impl World {
    fn new(w: u16, h: u16) -> World {
        let colors = Colors::term_colors();
        World {
            screen: ScreenBuffer::new(w, h, colors),
            history: FrameHistoryStore::new(),
            sprites: Vec::new(),
            styles: Vec::new(),
            colors,
        }
    }

    fn add_sprite(&mut self, sp: Sprite) -> usize {
        let style = StyleMap::uniform(Style::plain(), sp.width, sp.height);
        self.sprites.push(sp);
        self.styles.push(style);
        self.sprites.len() - 1
    }

    fn frame(&mut self, entities: &Vec<PlacedEntity>) -> FrameResult {
        let sc = vec![false; self.sprites.len()];
        let stc = vec![false; self.styles.len()];
        render_frame(
            &mut self.screen,
            &mut self.history,
            entities,
            &self.sprites,
            &self.styles,
            &sc,
            &stc,
            self.colors,
        )
    }
}

fn opaque(id: u64, handle: usize, x: i32, y: i32, z: i32) -> PlacedEntity {
    PlacedEntity {
        id,
        sprite: handle,
        style: handle,
        position: Position { x, y, z },
        visibility: Visibility::Opaque,
    }
}

#[test]
fn idempotence_second_frame_writes_nothing() {
    let mut w = World::new(20, 10);
    let box3 = w.add_sprite(Sprite::filled('#', 3, 3));
    let entities = vec![opaque(1, box3, 2, 2, 0)];
    let first = w.frame(&entities);
    assert!(!first.writes.is_empty());
    let second = w.frame(&entities);
    assert!(second.writes.is_empty());
    assert!(second.redraw.is_empty());
    assert!(second.clears.is_empty());
}

#[test]
fn coverage_moved_entity_is_in_redraw_set() {
    let mut w = World::new(20, 10);
    let box2 = w.add_sprite(Sprite::filled('x', 2, 2));
    let dot = w.add_sprite(Sprite::filled('o', 1, 1));
    let mut entities = vec![opaque(1, box2, 0, 0, 0), opaque(2, dot, 10, 5, 0)];
    w.frame(&entities);
    entities[0].position.x = 4;
    let out = w.frame(&entities);
    assert!(out.redraw.contains(&0));
    assert!(!out.redraw.contains(&1));
}

#[test]
fn transitive_overlap_pulls_in_the_whole_chain() {
    let mut w = World::new(30, 10);
    let s2 = w.add_sprite(Sprite::filled('a', 2, 2));
    let s3 = w.add_sprite(Sprite::filled('b', 3, 3));
    // A at (0,0), B at (1,1) overlapping A, C at (3,3) overlapping B only.
    let mut entities = vec![
        opaque(1, s2, 0, 0, 2),
        opaque(2, s3, 1, 1, 1),
        opaque(3, s2, 3, 3, 0),
    ];
    w.frame(&entities);
    // Move A: its old box still overlaps B; B's box overlaps C.
    entities[0].position.x = 8;
    let out = w.frame(&entities);
    assert!(out.redraw.contains(&0));
    assert!(out.redraw.contains(&1));
    assert!(out.redraw.contains(&2));
}

#[test]
fn clear_resets_vacated_cells_to_background() {
    let mut w = World::new(20, 10);
    let box2 = w.add_sprite(Sprite::filled('#', 2, 2));
    let mut entities = vec![opaque(1, box2, 1, 1, 0)];
    w.frame(&entities);
    assert_eq!(cell_at(&w.screen, 1, 1).glyph, '#');
    entities[0].position.x = 10;
    w.frame(&entities);
    let blank = blank_cell(w.colors);
    for y in 1..3 {
        for x in 1..3 {
            assert_eq!(cell_at(&w.screen, x, y), blank);
        }
    }
    assert_eq!(cell_at(&w.screen, 10, 1).glyph, '#');
}

#[test]
fn transparent_blank_sprite_never_changes_the_screen() {
    let mut w = World::new(12, 6);
    let bg = w.add_sprite(Sprite::filled('#', 4, 4));
    let blank4 = w.add_sprite(Sprite::filled(' ', 4, 4));
    let entities = vec![opaque(1, bg, 0, 0, 0)];
    w.frame(&entities);
    let before = w.screen.cells.clone();
    // A transparent, all-blank sprite right on top, then behind: neither
    // frame may change a single cell, although the sprite itself is new
    // each time and forces a repaint of what it overlaps.
    let mut with_overlay = entities.clone();
    with_overlay.push(PlacedEntity {
        id: 2,
        sprite: blank4,
        style: blank4,
        position: Position { x: 0, y: 0, z: 5 },
        visibility: Visibility::Transparent,
    });
    let out = w.frame(&with_overlay);
    assert!(out.writes.is_empty());
    assert!(!out.redraw.is_empty());
    assert_eq!(w.screen.cells, before);
    with_overlay[1].position.z = -5;
    let out2 = w.frame(&with_overlay);
    assert!(out2.writes.is_empty());
    assert_eq!(w.screen.cells, before);
}

#[test]
fn transparent_blank_cells_show_what_is_beneath() {
    let mut w = World::new(10, 5);
    let bg = w.add_sprite(Sprite::filled('#', 3, 3));
    let holed = w.add_sprite(Sprite::from_rows(vec![chars("x x"), chars(" x "), chars("x x")]));
    let entities = vec![
        opaque(1, bg, 0, 0, 0),
        PlacedEntity {
            id: 2,
            sprite: holed,
            style: holed,
            position: Position { x: 0, y: 0, z: 1 },
            visibility: Visibility::Transparent,
        },
    ];
    w.frame(&entities);
    assert_eq!(cell_at(&w.screen, 0, 0).glyph, 'x');
    assert_eq!(cell_at(&w.screen, 1, 0).glyph, '#');
    assert_eq!(cell_at(&w.screen, 1, 1).glyph, 'x');
    assert_eq!(cell_at(&w.screen, 0, 1).glyph, '#');
}

#[test]
fn opaque_sprite_overwrites_with_blanks() {
    let mut w = World::new(10, 5);
    let bg = w.add_sprite(Sprite::filled('#', 3, 3));
    let holed = w.add_sprite(Sprite::from_rows(vec![chars("x x")]));
    let entities = vec![opaque(1, bg, 0, 0, 0), opaque(2, holed, 0, 0, 1)];
    w.frame(&entities);
    assert_eq!(cell_at(&w.screen, 0, 0).glyph, 'x');
    assert_eq!(cell_at(&w.screen, 1, 0).glyph, ' ');
    assert_eq!(cell_at(&w.screen, 0, 1).glyph, '#');
}

#[test]
fn despawn_schedules_one_clear_and_forgets_the_entity() {
    let mut w = World::new(20, 10);
    let box3 = w.add_sprite(Sprite::filled('#', 3, 3));
    let entities = vec![opaque(9, box3, 4, 4, 0)];
    w.frame(&entities);
    assert!(w.history.observe(9).is_some());
    let none: Vec<PlacedEntity> = Vec::new();
    let out = w.frame(&none);
    assert_eq!(out.clears, vec![Rect { x0: 4, y0: 4, x1: 7, y1: 7 }]);
    assert!(out.redraw.is_empty());
    assert!(w.history.observe(9).is_none());
    let blank = blank_cell(w.colors);
    for y in 4..7 {
        for x in 4..7 {
            assert_eq!(cell_at(&w.screen, x, y), blank);
        }
    }
    // A later frame neither clears nor redraws anything for it.
    let out2 = w.frame(&none);
    assert!(out2.clears.is_empty());
    assert!(out2.redraw.is_empty());
    assert!(out2.writes.is_empty());
}

#[test]
fn moving_box_beside_stationary_dot_redraws_both() {
    let mut w = World::new(20, 10);
    let rows = Sprite::from_rows(vec![chars("###"), chars("###"), chars("###")]);
    let box3 = w.add_sprite(rows);
    let dot = w.add_sprite(Sprite::filled('@', 1, 1));
    // A 3-row glyph buffer occupying (5,5)-(7,7) and a 1x1 glyph at (8,5).
    let mut entities = vec![opaque(1, box3, 5, 5, 0), opaque(2, dot, 8, 5, 1)];
    w.frame(&entities);
    // The box moves one column right.
    entities[0].position.x = 6;
    let out = w.frame(&entities);
    assert!(out.redraw.contains(&0));
    assert!(out.redraw.contains(&1));
    assert!(out.clears.contains(&Rect { x0: 5, y0: 5, x1: 8, y1: 8 }));
    assert_eq!(cell_at(&w.screen, 8, 5).glyph, '@');
    assert_eq!(cell_at(&w.screen, 5, 5).glyph, ' ');
    assert_eq!(cell_at(&w.screen, 6, 5).glyph, '#');
}

#[test]
fn zero_size_sprite_is_a_valid_no_op_footprint() {
    let mut w = World::new(10, 5);
    let empty = w.add_sprite(Sprite::filled('#', 0, 0));
    let dot = w.add_sprite(Sprite::filled('*', 1, 1));
    // The degenerate entity sits right on the dot, yet neither paints a
    // cell nor drags its neighbor into later redraws.
    let mut entities = vec![opaque(1, empty, 3, 2, 5), opaque(2, dot, 3, 2, 0)];
    let out = w.frame(&entities);
    assert_eq!(cell_at(&w.screen, 3, 2).glyph, '*');
    assert!(out.redraw.contains(&0));
    // Move the empty entity: its empty boxes overlap nothing, so the dot
    // stays untouched and no cell changes.
    entities[0].position.x = 4;
    let out2 = w.frame(&entities);
    assert!(out2.redraw.contains(&0));
    assert!(!out2.redraw.contains(&1));
    assert!(out2.writes.is_empty());
}

#[test]
fn identical_boxes_both_redraw_when_one_is_dirty() {
    let mut w = World::new(10, 5);
    let a = w.add_sprite(Sprite::filled('a', 2, 2));
    let b = w.add_sprite(Sprite::filled('b', 2, 2));
    let mut entities = vec![opaque(1, a, 2, 2, 0), opaque(2, b, 2, 2, 1)];
    w.frame(&entities);
    // Only the lower entity changes its depth; the byte-identical box of
    // the other forces both into the redraw set.
    entities[0].position.z = 3;
    let out = w.frame(&entities);
    assert!(out.redraw.contains(&0));
    assert!(out.redraw.contains(&1));
    assert_eq!(cell_at(&w.screen, 2, 2).glyph, 'a');
}

#[test]
fn shape_mismatch_is_reported_and_entity_skipped() {
    let mut w = World::new(10, 5);
    let sp = Sprite::filled('#', 2, 2);
    w.sprites.push(sp);
    // Deliberately pair it with a style grid of the wrong dimensions.
    w.styles.push(StyleMap::uniform(Style::plain(), 3, 3));
    let entities = vec![opaque(5, 0, 1, 1, 0)];
    let out = w.frame(&entities);
    assert_eq!(out.errors, vec![RenderError::ShapeMismatch { id: 5 }]);
    assert!(out.writes.is_empty());
    assert_eq!(cell_at(&w.screen, 1, 1), blank_cell(w.colors));
}

#[test]
fn depth_order_decides_overlap_and_ties_go_to_later_entities() {
    let mut w = World::new(10, 5);
    let a = w.add_sprite(Sprite::filled('a', 2, 2));
    let b = w.add_sprite(Sprite::filled('b', 2, 2));
    let entities = vec![opaque(1, a, 0, 0, 3), opaque(2, b, 1, 1, 1)];
    w.frame(&entities);
    // Higher z paints last and wins the overlap.
    assert_eq!(cell_at(&w.screen, 1, 1).glyph, 'a');
    assert_eq!(cell_at(&w.screen, 2, 2).glyph, 'b');
    // Equal z: the later entity wins.
    let mut w2 = World::new(10, 5);
    let a2 = w2.add_sprite(Sprite::filled('a', 2, 2));
    let b2 = w2.add_sprite(Sprite::filled('b', 2, 2));
    let tied = vec![opaque(1, a2, 0, 0, 1), opaque(2, b2, 0, 0, 1)];
    w2.frame(&tied);
    assert_eq!(cell_at(&w2.screen, 0, 0).glyph, 'b');
}

#[test]
fn window_color_change_rewrites_the_whole_screen() {
    let mut w = World::new(4, 3);
    let none: Vec<PlacedEntity> = Vec::new();
    let out = w.frame(&none);
    assert!(out.writes.is_empty());
    w.colors = Colors { foreground: Color::White, background: Color::Blue };
    let out2 = w.frame(&none);
    assert_eq!(out2.writes.len(), 12);
    for wr in &out2.writes {
        assert_eq!(wr.cell, blank_cell(w.colors));
    }
}

#[test]
fn writes_report_exactly_the_changed_cells() {
    let mut w = World::new(10, 5);
    let dot = w.add_sprite(Sprite::filled('*', 1, 1));
    let entities = vec![opaque(1, dot, 3, 2, 0)];
    let out = w.frame(&entities);
    assert_eq!(out.writes.len(), 1);
    let wr: CellWrite = out.writes[0];
    assert_eq!((wr.x, wr.y), (3, 2));
    assert_eq!(wr.cell.glyph, '*');
}

#[test]
fn hot_reload_flag_marks_entity_dirty() {
    let mut w = World::new(10, 5);
    let dot = w.add_sprite(Sprite::filled('*', 1, 1));
    let entities = vec![opaque(1, dot, 3, 2, 0)];
    w.frame(&entities);
    // Nothing changed except the asset-content flag: still a redraw.
    let sc = vec![true];
    let stc = vec![false];
    let out = render_frame(
        &mut w.screen,
        &mut w.history,
        &entities,
        &w.sprites,
        &w.styles,
        &sc,
        &stc,
        w.colors,
    );
    assert!(out.redraw.contains(&0));
    assert!(out.writes.is_empty());
}

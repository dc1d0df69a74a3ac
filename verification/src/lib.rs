//! Incremental terminal redraw engine.
//!
//! A scene of positioned, styled text sprites is rendered onto an in-memory
//! screen buffer, and only the cells that actually changed since the previous
//! frame are reported for emission to the terminal.  The engine keeps a
//! per-entity history of the previous frame, resolves the minimal set of
//! entities to repaint (propagating through overlapping geometry), composites
//! them in depth order with transparency, and diffs the result against the
//! prior screen contents.

pub mod compositor;
pub mod entity;
pub mod frame;
pub mod history;
pub mod rect;
pub mod resolver;
pub mod screen;
pub mod sprite;
pub mod style;

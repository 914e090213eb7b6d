//! Editing engine for an interactive tile-map level editor.
//!
//! The library covers the three pieces at the heart of such an editor:
//! a bidirectional integer coordinate transform between model (grid cell)
//! space and view (pixel) space, a layered sparse tile grid with paint and
//! erase operations, and the interaction state machine that turns abstract
//! input messages into grid and viewport mutations.  Windowing, rendering
//! and file I/O stay outside; the library only computes.

pub mod editor;
pub mod level;
pub mod options;
pub mod persist;
pub mod schema;
pub mod viewport;

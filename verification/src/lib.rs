//! A verified core for a small modal text editor.
//!
//! The library owns the text itself: per-line gap buffers, the document that
//! orders them and plans crash-safe saves, and the modal cursor/input state
//! machine that maps logical positions to a soft-wrapped screen grid.
//! Terminal I/O and file I/O live outside the library and exchange plain
//! values with it.

pub mod document;
pub mod editor;
pub mod gap_buffer;
pub mod save_protocol;
pub mod text;

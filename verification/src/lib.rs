//! A multi-cursor text-editing engine.
//!
//! Given a text buffer (a `ropey::Rope`) and a set of caret/selection pairs,
//! the engine applies keyboard-style edit events to the buffer while keeping
//! every cursor's position in step: virtual columns are clamped on demand,
//! edits made by one cursor shift the cursors after it, and overlapping or
//! touching selections are merged after every event.

pub mod buffer;
pub mod cursor;
pub mod cursors;
pub mod text;

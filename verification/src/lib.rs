//! A small terminal text editor core: a piece table that records insertions,
//! byte-level text layout (lines, soft wrapping, cursor positions) and the
//! editor state machine that reacts to key presses.

pub mod text;
pub mod utf8_facts;
pub mod piece_table;
pub mod format;
pub mod editor;
pub mod guards;
pub mod editor_laws;

//! The editing core of a modal terminal text editor.
//!
//! * [`text`] is the model: a text as a flat run of bytes, with its lines,
//!   its addresses and its edits.
//! * [`piece_table`] is the document buffer, which holds a text in pieces and
//!   edits it without moving its bytes.
//! * [`editor`] is the edit session, the state machine that reads keys and
//!   drives the buffer and the cursor.
//! * [`screen`] and [`tui`] say where things stand on a screen and what
//!   frames a window.
//!
//! The core reads no key and draws nothing. A program around it reads the
//! keys, gives them to the session one by one, does what the session asks
//! for, and draws what the session shows.

pub mod editor;
pub mod piece_table;
pub mod screen;
pub mod text;
pub mod tui;

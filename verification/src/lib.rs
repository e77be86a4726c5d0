//! A line-oriented text editing core: a byte-accurate UTF-8 document model
//! with cursor navigation, undo/redo, visual-column tracking, a terminal
//! escape-sequence decoder, and buffered terminal output.

pub mod action;
pub mod buffer;
pub mod col;
pub mod config;
pub mod digits;
pub mod editor;
pub mod doctext;
pub mod file;
pub mod line;
pub mod terminal;
pub mod unicode;

//! A piece-table text buffer with linear undo and redo.
pub mod laws;
pub mod lines;
pub mod piece;
pub mod piece_file;
pub mod render;
pub mod scope;

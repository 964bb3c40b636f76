//! Plain values that the terminal front end passes around.
use vstd::prelude::*;

verus! {

/// A position on the screen, in rows and columns.
#[derive(Debug, Clone, Copy, PartialEq, Eq, Structural)]
pub struct Point {
    pub row: u16,
    pub col: u16,
}

/// A request to the thread that draws the screen.
#[derive(Debug)]
pub enum RenderMessage {
    /// Clear the screen.
    Clear,
    /// Clear from the cursor to the end of its line.
    ClearToEndOfLine,
    /// Move the cursor to a row and column.
    Move(u16, u16),
    /// Write a string at the cursor.
    Write(String),
}

/// How the terminal hands over input: key by key, or line by line.
#[derive(Debug, Clone, Copy, PartialEq, Eq, Structural)]
pub enum TermMode {
    Raw,
    Cooked,
}

} // verus!

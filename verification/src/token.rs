//! The token model: the eight commands and where each occurrence was found.

use vstd::prelude::*;

verus! {

/// A command of the language: it either changes the state of the program or
/// performs input or output.
#[derive(Debug, Clone, Copy, PartialEq, Eq, Structural)]
pub enum TokenType {
    /// Move the pointer one cell to the right (`>`).
    PointInc,
    /// Move the pointer one cell to the left (`<`).
    PointDec,
    /// Increment the cell under the pointer (`+`).
    ValInc,
    /// Decrement the cell under the pointer (`-`).
    ValDec,
    /// Write the cell under the pointer (`.`).
    Output,
    /// Read into the cell under the pointer (`,`).
    Input,
    /// Open a loop that runs while the cell under the pointer is not zero (`[`).
    IfZero,
    /// Close the innermost open loop (`]`).
    IfNonZero,
}

/// One occurrence of a command in the source, with its 1-indexed position.
#[derive(Debug, Clone, Copy, PartialEq, Eq, Structural)]
pub struct Token {
    pub ty: TokenType,
    pub line: u32,
    pub col: u32,
}

impl Token {
    /// Builds the token of kind `ty` found at `line`, `col`.
    pub fn from(ty: TokenType, line: u32, col: u32) -> (token: Self)
        ensures
            token == (Token { ty, line, col }),
    {
        Token { ty, line, col }
    }
}

} // verus!

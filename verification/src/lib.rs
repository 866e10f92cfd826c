//! An interpreter for a minimal pointer-and-tape language of eight
//! single-character commands: source text is lexed into tokens, the tokens are
//! parsed into an optimized expression tree, and the tree is executed against
//! a growable tape of 32-bit cells.

pub mod token;
pub mod error;
pub mod expr;
pub mod lexer;
pub mod parser;
pub mod semantics;
pub mod progstate;
pub mod equivalence;
pub mod soundness;
pub mod completeness;
pub mod programs;

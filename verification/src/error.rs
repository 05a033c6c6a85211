//! Faults the front end can report. Every fault is fatal to the run: the
//! parser returns the first one it meets and produces no partial result.

use vstd::prelude::*;

use crate::lexer::TokenKind;

verus! {

/// The first fault met while scanning or parsing, with the byte offset into
/// the source where it was found (where one exists).
#[derive(Debug, PartialEq)]
pub enum ParseError {
    /// A byte that begins no token (LexicalError class).
    Lexical { pos: usize },
    /// The token stream ended where the grammar required more (SyntaxError class).
    UnexpectedEof,
    /// A token of the wrong kind where the grammar required another
    /// (SyntaxError class, the "Unexpected token" message).
    UnexpectedToken { pos: usize, kind: TokenKind },
    /// An integer literal whose value does not fit in `i32`.
    NumOverflow { pos: usize },
    /// A statement beginning with a token no implemented statement form
    /// starts with; only variable assignment exists in this version.
    UnsupportedStmt { pos: usize, kind: TokenKind },
}

} // verus!

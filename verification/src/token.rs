//! The token alphabet of the lexer.

use vstd::prelude::*;

verus! {

/// One lexical token. The six delimiter tokens are the two-character
/// sequences that open and close expressions, blocks and comments; everything
/// else is a run of plain text.
#[derive(Debug, Clone, Copy, PartialEq, Eq, Structural)]
pub enum Token {
    /// `{{`
    ExprStart,
    /// `}}`
    ExprEnd,
    /// `{%`
    BlockStart,
    /// `%}`
    BlockEnd,
    /// `{#`
    CommentStart,
    /// `#}`
    CommentEnd,
    /// A run of plain text.
    Other,
}

} // verus!

//! Source locations: half-open `[start, end)` character-offset ranges.

use vstd::prelude::*;

verus! {

/// A half-open range of character offsets into the template source.
#[derive(Debug, Clone, Copy, PartialEq, Eq, Structural)]
pub struct Span {
    pub start: usize,
    pub end: usize,
}

/// A value paired with the source range it was read from.
#[derive(Debug, Clone, Copy, PartialEq, Eq, Structural)]
pub struct Spanned<T> {
    pub node: T,
    pub span: Span,
}

} // verus!

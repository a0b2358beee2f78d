//! Conversion between tree-structured documents and a flat, line-based
//! `path = value` text format, built around a shared path grammar.

pub mod escape;
pub mod flatten;
pub mod path_segments;
pub mod split;
pub mod text;
pub mod unflatten;
pub mod value;

use vstd::prelude::*;

verus! {

/// A parse error for the path grammar: the input violates the grammar
/// (unterminated bracket, empty index, non-numeric index content,
/// unterminated quoted segment, or trailing unconsumed input).
#[derive(Debug, Clone, Copy, PartialEq, Eq, Structural)]
pub enum PathParseError {
    Malformed,
}

} // verus!

//! The parser: recognizers of lexical units and of nodes, and the tree builder.
use vstd::prelude::*;

pub mod node;
pub mod raw_type;

pub use node::parse;

verus! {

/// Why a recognizer or a parse failed.
#[derive(Clone, Copy, Debug, PartialEq, Eq)]
pub enum ParseError {
    /// Nothing that the recognizer knows stands at this place.
    NoMatch,
    /// An attribute had `=` after its name but no value that the grammar knows.
    MalformedAttribute,
    /// The input ended inside an element, before its closing tag.
    UnclosedElement,
}

} // verus!

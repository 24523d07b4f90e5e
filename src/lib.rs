//! A parser for a well-formed subset of HTML into a tree of nodes.
pub mod scan;
pub mod dom;
pub mod grammar;
pub mod parser;
pub mod tools;
pub mod laws;

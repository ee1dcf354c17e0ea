//! A unist-style syntax tree shared by the Org and MDX sides.
use vstd::prelude::*;

pub mod node;

pub use node::{DataEntry, DataValue, AstNode};

verus! {

/// A span of the source text.
#[derive(Clone, Copy, PartialEq, Eq, Debug)]
pub struct Position {
    pub start: Point,
    pub end: Point,
}

/// A place in the source text.
#[derive(Clone, Copy, PartialEq, Eq, Debug)]
pub struct Point {
    pub line: u32,
    pub column: u32,
    pub offset: u32,
}

} // verus!

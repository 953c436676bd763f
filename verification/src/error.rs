//! The errors that loading and sampling report.

use vstd::prelude::*;

verus! {

/// What is wrong with a line of an edge list.
#[derive(Clone, Copy, Debug, PartialEq, Eq, Structural)]
pub enum FormatErrorKind {
    /// The first line is not a node count.
    MalformedCount,
    /// An edge line has fewer than two tokens.
    MissingToken,
    /// One of the first two tokens of an edge line is not a number.
    MalformedNodeId,
    /// An edge names a node that the graph does not have.
    NodeOutOfRange,
}

/// The first line of an edge list that cannot be read, counted from 1, and
/// what is wrong with it.
#[derive(Clone, Copy, Debug, PartialEq, Eq, Structural)]
pub struct FormatError {
    pub line: usize,
    pub kind: FormatErrorKind,
}

/// A node was to be drawn from a graph without nodes.
#[derive(Clone, Copy, Debug, PartialEq, Eq, Structural)]
pub struct EmptyGraphError;

} // verus!

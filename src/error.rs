//! The ways in which the engine refuses its input.

use vstd::prelude::*;

verus! {

#[derive(Clone, Copy, Debug, PartialEq, Eq, Structural)]
pub enum EngineError {
    /// Line `line` of a buffer (counting from 0) is not `name;value`.
    MalformedRecord { line: usize },
    /// No newline where a chunk had to end or begin: a record is longer than
    /// the overrun margin.
    BoundaryOverrunExceeded,
}

} // verus!

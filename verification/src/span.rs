//! Source locations.
use vstd::prelude::*;

verus! {

/// A byte range of the source together with the 1-based line and column of its start.
#[derive(Clone, Copy, Debug, PartialEq, Eq, Hash)]
pub struct Span {
    pub start: usize,
    pub end: usize,
    pub line: usize,
    pub column: usize,
}

impl Span {
    pub fn new(start: usize, end: usize, line: usize, column: usize) -> (s: Self)
        ensures
            s == (Span { start, end, line, column }),
    {
        Span { start, end, line, column }
    }
}

} // verus!

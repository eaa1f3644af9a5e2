//! Source locations attached to every enforcement call for diagnostics.

use vstd::prelude::*;

verus! {

/// An immutable source location. The enforcement engine never inspects it;
/// it is only carried through and attached to errors.
#[derive(Clone, Copy, Debug, PartialEq, Eq, Structural)]
pub struct Span {
    /// Offset of the first character the operation covers.
    pub start: usize,
    /// Offset one past the last character the operation covers.
    pub end: usize,
}

impl Span {
    pub fn new(start: usize, end: usize) -> (s: Span)
        ensures
            s.start == start,
            s.end == end,
    {
        Span { start, end }
    }
}

} // verus!

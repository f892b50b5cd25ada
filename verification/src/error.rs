use vstd::prelude::*;

verus! {

/// Why an operation on a rope or a cursor was refused.
#[derive(Clone, Copy, Debug, PartialEq, Eq, Structural)]
pub enum RopeError {
    /// An index or a range lies outside `[0, length]`, or a range ends before
    /// it starts.
    OutOfRange,
    /// A tree's bookkeeping (a weight or a stored fragment length) does not
    /// match the text below it.
    InvalidStructure,
}

} // verus!

//! What can go wrong when a grid is built or read.
use vstd::prelude::*;

verus! {

/// Reasons for refusing an input.
#[derive(Debug, Clone, Copy, PartialEq, Eq, Structural)]
pub enum GridError {
    /// A brush or stencil with no columns or no rows.
    ZeroDimension,
    /// A coordinate outside the grid.
    OutOfRange,
    /// A grid whose cell count would not fit in `usize`.
    TooLarge,
}

} // verus!

//! The reasons for which an operation is refused.
use vstd::prelude::*;

verus! {

/// Why an operation on a cell or on the board was refused.
#[derive(Debug, Clone, Copy, PartialEq, Eq, Structural)]
pub enum Error {
    /// A digit was forced on a cell that holds exactly one digit already.
    AlreadyCollapsed,
    /// Removing the digit would have left the cell without any digit.
    Contradiction,
    /// The digit of a cell was asked for while the cell still holds several.
    NotCollapsed,
}

} // verus!

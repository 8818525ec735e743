//! The error taxonomy shared by every container operation.

use vstd::prelude::*;

verus! {

/// Why a container operation failed. Each operation's contract states
/// exactly which inputs produce which variant; a failing operation leaves
/// its container unchanged.
#[derive(Clone, Copy, Debug, PartialEq, Eq, Structural)]
pub enum KotError {
    /// An index outside the valid range of positions.
    OutOfBounds,
    /// An element was demanded from an empty container.
    EmptyContainer,
    /// No element (or more than one, where one was demanded) matched.
    NotFound,
    /// A key lookup on an association found no entry.
    KeyNotFound,
    /// An inserted value does not satisfy the container's declared kind.
    TypeMismatch,
    /// A size, step or range argument outside its allowed values.
    InvalidArgument,
}

} // verus!

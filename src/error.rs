use vstd::prelude::*;

verus! {

/// Why an operation on invitations failed.
#[derive(Debug, Clone, Copy, PartialEq, Eq, Structural)]
pub enum InviteError {
    /// A hash does not resolve to anything.
    NotFound,
    /// Someone other than the invitation's author tried to edit it.
    AuthorizationError,
    /// A payload or the update chain is not what it should be.
    Malformed,
    /// The store failed to read or write.
    StoreUnavailable,
    /// An agent that is not invited tried to respond.
    InvalidResponder,
}

} // verus!

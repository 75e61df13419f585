use vstd::prelude::*;

verus! {

/// The kinds of failure that the storage engine surfaces to its callers.
#[derive(Debug, Clone, Copy, PartialEq, Eq, Structural)]
pub enum GitDBError {
    /// A commit or the tip pointer could not be located.
    NotFound,
    /// The caller supplied malformed data, or a referenced commit is absent.
    InvalidInput,
    /// An integrity digest did not match, or stored bytes did not decode.
    CorruptData,
    /// The key-value backend reported an error.
    BackendFailure,
    /// The wall clock could not be read.
    ClockFailure,
    /// The replay engine rejected a change.
    CrdtFailure,
}

} // verus!

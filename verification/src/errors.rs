//! The error taxonomy of a sync pass. Errors carry their context as plain
//! strings; collaborator failures are propagated unmodified and abort the
//! remainder of the pass.

use vstd::prelude::*;

verus! {

/// A failure during a sync pass.
#[derive(Debug)]
pub enum Error {
    /// Transport-level failure reaching an external source.
    Request { url: String, method: String, message: String },
    /// The external source replied but reported failure or included
    /// application-level errors.
    Response { message: String },
    /// A backend collaborator failed to read, parse or deliver records.
    Backend { backend: String, message: String },
    /// A frontend collaborator failed to read or apply records.
    Frontend { frontend: String, message: String },
    /// Orchestration-level failure distinct from a collaborator failure.
    Sync { message: String },
    /// Invalid or unrecognized configuration.
    Config { message: String, prefix: String },
}

/// The result of a fallible operation of this library.
pub type SyncResult<T> = Result<T, Error>;

} // verus!

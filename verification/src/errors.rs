//! The error kinds that engine operations report.

use vstd::prelude::*;

verus! {

/// Why an engine operation was refused.
///
/// Every fallible operation of the engine returns one of these kinds; no
/// operation panics and none retries on its own.
#[derive(Clone, Copy, Debug, PartialEq, Eq, Structural)]
pub enum RepoError {
    /// The resource to create already exists: a workspace, a branch, or a
    /// file on create.
    Conflict,
    /// The named workspace, branch, commit, digest or file is absent.
    NotFound,
    /// A referenced object digest does not resolve to an object of the
    /// expected kind: the store and the references disagree.
    Corrupt,
    /// A read or write against the surrounding system failed. The engine
    /// itself never produces this kind; callers that persist a workspace
    /// use it to surface their own failures.
    IoFailure,
}

} // verus!

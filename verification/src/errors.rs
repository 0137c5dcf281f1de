//! Failure taxonomy of a run.
//!
//! Configuration problems are fatal before any subscription is attempted;
//! every other failure is fatal to the worker that observes it, and the
//! first worker failure ends the whole run.

use vstd::prelude::*;

verus! {

/// The kinds of fatal condition a worker or a whole run can hit once
/// subscriptions have been attempted.
#[derive(Debug, Clone, Copy, PartialEq, Eq, Structural)]
pub enum FailureKind {
    /// The transport failed to establish the subscription.
    Connection,
    /// A message did not have the expected shape.
    Protocol,
    /// The stream ended without a transport error. Treated as fatal all the
    /// same: these subscriptions are expected to run indefinitely.
    StreamClosed,
}

/// Configuration errors, fatal before any subscription is attempted.
#[derive(Debug, Clone, Copy, PartialEq, Eq, Structural)]
pub enum ConfigError {
    /// A non-blank line of the identity list failed to parse. `index` is the
    /// position of the offending line among the non-blank lines, so it also
    /// counts the identities successfully parsed before it.
    InvalidIdentity { index: usize },
    /// A byte-range argument was not `offset,length` with two unsigned
    /// decimal numbers.
    InvalidDataSlice,
}

impl FailureKind {
    /// A short human-readable label for this failure kind.
    pub fn label(&self) -> (r: &'static str)
        ensures
            *self is Connection ==> r@ == "connection failed"@,
            *self is Protocol ==> r@ == "protocol error"@,
            *self is StreamClosed ==> r@ == "stream finished"@,
    {
        match self {
            FailureKind::Connection => "connection failed",
            FailureKind::Protocol => "protocol error",
            FailureKind::StreamClosed => "stream finished",
        }
    }
}

} // verus!

//! The event normalizer: turns what a subscription source yielded into a
//! `(key, timestamp)` event, a skip, or a protocol failure.
//!
//! The timestamp is always the moment of local receipt, handed in by the
//! caller; the system measures perceived propagation latency between
//! sources, never source-side event time.

use vstd::prelude::*;
use crate::errors::FailureKind;

verus! {

/// What one source yielded, reduced to the parts the correlation logic
/// reads.
pub enum Payload {
    /// A well-formed notification carrying the correlation key.
    Keyed { key: u64 },
    /// A well-formed notification of a kind this run does not correlate.
    Other,
    /// The stream yielded a message that could not be decoded.
    Malformed,
}

/// The normalizer's verdict on one payload.
#[derive(Debug, Clone, Copy, PartialEq, Eq, Structural)]
pub enum Normalized {
    /// Correlate `key`, received locally at `at`.
    Event { key: u64, at: u64 },
    /// Ignore the notification; the stream goes on.
    Skip,
    /// Abort this source's worker.
    Fail { kind: FailureKind },
}

/// Extract the correlation event from `payload`, stamping it with the
/// local receipt time `now`. A payload without the expected shape is a
/// protocol error; an unrelated notification is skipped.
pub fn normalize(payload: &Payload, now: u64) -> (r: Normalized)
    ensures
        *payload matches Payload::Keyed { key } ==> r == (Normalized::Event { key, at: now }),
        *payload is Other ==> r == Normalized::Skip,
        *payload is Malformed ==> r == (Normalized::Fail { kind: FailureKind::Protocol }),
{
    match payload {
        Payload::Keyed { key } => Normalized::Event { key: *key, at: now },
        Payload::Other => Normalized::Skip,
        Payload::Malformed => Normalized::Fail { kind: FailureKind::Protocol },
    }
}

} // verus!

//! The subscription handshake: classifying the acknowledgement that a
//! transport returns right after a subscription request.
//!
//! The transport contract expects one immediate response correlating the
//! request to a numeric subscription id; everything else ends the
//! attempt. Only the JSON decoding itself is delegated to `serde_json`;
//! the classification of every outcome is decided here.

use vstd::prelude::*;
use crate::errors::FailureKind;

verus! {

/// The numeric `result` field of the acknowledgement text, when the text
/// is a JSON object carrying one. A fixed function of the text alone.
pub uninterp spec fn ack_result_of(s: Seq<char>) -> Option<u64>;

/// Relies on `serde_json::from_str::<serde_json::Value>`, `Value::get`
/// and `Value::as_u64`: parses the text as JSON and reads the `result`
/// field of the top-level object as an unsigned integer, if all of that
/// holds; the outcome depends on the text alone.
#[verifier::external_body]
fn ack_subscription_id(data: &str) -> (r: Option<u64>)
    ensures
        r == ack_result_of(data@),
{
    match serde_json::from_str::<serde_json::Value>(data) {
        Ok(v) => match v.get("result") {
            Some(x) => x.as_u64(),
            None => None,
        },
        Err(_) => None,
    }
}

/// What arrived — or failed to — while waiting for the acknowledgement of
/// a subscription request.
pub enum AckMessage {
    /// A text message; its JSON may or may not acknowledge.
    Text { data: String },
    /// A non-text message, where only text is acceptable.
    NonText,
    /// The transport yielded an error before any acknowledgement.
    TransportError,
    /// The stream closed before any acknowledgement.
    Closed,
}

/// Classify the first message after a subscription request. A text
/// message whose JSON carries a numeric `result` acknowledges the
/// subscription with that id; a text message of any other shape, or a
/// non-text message, is a protocol error; a transport error means the
/// subscription was never established; a silent close is a closed stream.
pub fn classify_ack(msg: &AckMessage) -> (r: Result<u64, FailureKind>)
    ensures
        *msg matches AckMessage::Text { data } ==> match ack_result_of(data@) {
            Some(id) => r == Ok::<u64, FailureKind>(id),
            None => r == Err::<u64, FailureKind>(FailureKind::Protocol),
        },
        *msg is NonText ==> r == Err::<u64, FailureKind>(FailureKind::Protocol),
        *msg is TransportError ==> r == Err::<u64, FailureKind>(FailureKind::Connection),
        *msg is Closed ==> r == Err::<u64, FailureKind>(FailureKind::StreamClosed),
{
    match msg {
        AckMessage::Text { data } => match ack_subscription_id(data.as_str()) {
            Some(id) => Ok(id),
            None => Err(FailureKind::Protocol),
        },
        AckMessage::NonText => Err(FailureKind::Protocol),
        AckMessage::TransportError => Err(FailureKind::Connection),
        AckMessage::Closed => Err(FailureKind::StreamClosed),
    }
}

} // verus!

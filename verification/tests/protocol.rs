use whirligig_client::errors::FailureKind;
use whirligig_client::normalizer::{normalize, Normalized, Payload};
use whirligig_client::protocol::{classify_ack, AckMessage};

#[test]
fn ack_with_numeric_result_is_accepted() {
    let msg = AckMessage::Text {
        data: "{\"jsonrpc\":\"2.0\",\"result\":7,\"id\":1}".to_string(),
    };
    assert_eq!(classify_ack(&msg), Ok(7));
}

#[test]
fn ack_of_wrong_shape_is_a_protocol_error() {
    for data in [
        "{}",
        "[1,2]",
        "not json",
        "{\"result\":\"seven\"}",
        "{\"result\":-3}",
        "{\"outcome\":7}",
    ] {
        let msg = AckMessage::Text {
            data: data.to_string(),
        };
        assert_eq!(classify_ack(&msg), Err(FailureKind::Protocol));
    }
}

#[test]
fn missing_or_failed_ack_classifies_by_cause() {
    assert_eq!(classify_ack(&AckMessage::NonText), Err(FailureKind::Protocol));
    assert_eq!(
        classify_ack(&AckMessage::TransportError),
        Err(FailureKind::Connection)
    );
    assert_eq!(
        classify_ack(&AckMessage::Closed),
        Err(FailureKind::StreamClosed)
    );
}

#[test]
fn normalizer_stamps_local_receipt_time() {
    assert_eq!(
        normalize(&Payload::Keyed { key: 31 }, 700),
        Normalized::Event { key: 31, at: 700 }
    );
    assert_eq!(normalize(&Payload::Other, 700), Normalized::Skip);
    assert_eq!(
        normalize(&Payload::Malformed, 700),
        Normalized::Fail {
            kind: FailureKind::Protocol
        }
    );
}

use whirligig_client::correlator::{Correlator, IngestOutcome};
use whirligig_client::normalizer::Payload;
use whirligig_client::render::{render_comparison, u64_to_dec};

#[test]
fn completed_record_deltas_follow_declared_order() {
    // Sources A, B, C report key 100 at T, T+5ms, T+2ms: the deltas come
    // out in declared source order, not sorted by magnitude.
    let mut c = Correlator::new(3);
    assert!(c.record(0, 100, 1000).is_none());
    assert!(c.record(1, 100, 1005).is_none());
    let done = c.record(2, 100, 1002).expect("all sources reported");
    assert_eq!(done.key, 100);
    assert_eq!(done.deltas, vec![0, 5, 2]);
}

#[test]
fn rendered_line_follows_declared_order() {
    let names = vec![
        "pubsub".to_string(),
        "whirligig".to_string(),
        "grpc".to_string(),
    ];
    let line = render_comparison(100, &names, &vec![0, 5, 2]);
    assert_eq!(line, "100: pubsub +0ms, whirligig +5ms, grpc +2ms");
}

#[test]
fn decimal_rendering_is_exact() {
    assert_eq!(u64_to_dec(0), "0");
    assert_eq!(u64_to_dec(9), "9");
    assert_eq!(u64_to_dec(907), "907");
    assert_eq!(u64_to_dec(u64::MAX), "18446744073709551615");
}

#[test]
fn earliest_source_gets_delta_zero() {
    // The source with the minimum raw timestamp reports a delta of
    // exactly zero; the others are non-negative.
    let mut c = Correlator::new(3);
    assert!(c.record(0, 4, 900).is_none());
    assert!(c.record(1, 4, 850).is_none());
    let done = c.record(2, 4, 901).expect("all sources reported");
    assert_eq!(done.deltas[1], 0);
    assert_eq!(done.deltas, vec![50, 0, 51]);
    assert_eq!(*done.deltas.iter().min().unwrap(), 0);
}

#[test]
fn later_report_overwrites_earlier_one() {
    // record(A, 7, t1) then record(A, 7, t2) with no completion between:
    // the stored timestamp is t2, confirmed by the eventual delta.
    let mut c = Correlator::new(2);
    assert!(c.record(0, 7, 100).is_none());
    assert!(c.record(0, 7, 130).is_none());
    let done = c.record(1, 7, 150).expect("both sources reported");
    assert_eq!(done.deltas, vec![0, 20]);
}

#[test]
fn completion_evicts_every_key_at_or_below() {
    // After key 8 completes, nothing with key <= 8 remains, including
    // rows that were still incomplete; newer keys stay.
    let mut c = Correlator::new(2);
    assert!(c.record(0, 5, 10).is_none());
    assert!(c.record(1, 6, 11).is_none());
    assert!(c.record(0, 8, 12).is_none());
    assert!(c.record(0, 9, 13).is_none());
    let done = c.record(1, 8, 20).expect("key 8 complete");
    assert_eq!(done.key, 8);
    assert!(!c.contains_key(5));
    assert!(!c.contains_key(6));
    assert!(!c.contains_key(8));
    assert!(c.contains_key(9));
    assert_eq!(c.len(), 1);
}

#[test]
fn out_of_order_keys_correlate_independently() {
    let mut c = Correlator::new(2);
    assert!(c.record(0, 21, 5).is_none());
    assert!(c.record(0, 20, 6).is_none());
    let done = c.record(1, 20, 9).expect("key 20 complete");
    assert_eq!(done.key, 20);
    assert_eq!(done.deltas, vec![0, 3]);
    // Key 21 was above the completed key, so it survived.
    assert!(c.contains_key(21));
}

#[test]
fn ingest_normalizes_and_records() {
    let mut c = Correlator::new(1);
    match c.ingest(0, &Payload::Keyed { key: 3 }, 50) {
        IngestOutcome::Completed { completion } => {
            assert_eq!(completion.key, 3);
            assert_eq!(completion.deltas, vec![0]);
        }
        _ => panic!("a single-source correlator completes on first report"),
    }
    assert!(matches!(c.ingest(0, &Payload::Other, 60), IngestOutcome::Skipped));
    assert!(matches!(
        c.ingest(0, &Payload::Malformed, 61),
        IngestOutcome::Failed { .. }
    ));
    assert_eq!(c.len(), 0);
}

#[test]
fn partial_arrivals_stay_pending() {
    let mut c = Correlator::new(3);
    assert!(c.record(2, 11, 400).is_none());
    assert!(c.record(0, 11, 401).is_none());
    assert!(c.contains_key(11));
    assert_eq!(c.len(), 1);
    assert_eq!(c.source_count(), 3);
}

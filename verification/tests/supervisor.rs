use whirligig_client::errors::FailureKind;
use whirligig_client::identity::Identity;
use whirligig_client::report::{EventAction, ReportMode, ReportSink};
use whirligig_client::supervisor::{
    build_targets, worker_step, RunFailure, SubscriptionKind, Supervisor, SupervisorAction,
    SupervisorEvent, WorkerDirective, WorkerEvent,
};

#[test]
fn target_list_expands_in_declared_order() {
    let a1 = Identity { bytes: [1; 32] };
    let a2 = Identity { bytes: [2; 32] };
    let o1 = Identity { bytes: [9; 32] };
    let ts = build_targets(&vec![a1, a2], &vec![o1], true);
    assert_eq!(ts.len(), 6);
    let kinds: Vec<SubscriptionKind> = ts.iter().map(|t| t.kind).collect();
    assert_eq!(
        kinds,
        vec![
            SubscriptionKind::Account,
            SubscriptionKind::Account,
            SubscriptionKind::Program,
            SubscriptionKind::Transactions,
            SubscriptionKind::Transactions,
            SubscriptionKind::Transactions,
        ]
    );
    let firsts: Vec<u8> = ts.iter().map(|t| t.identity.bytes[0]).collect();
    assert_eq!(firsts, vec![1, 2, 9, 1, 2, 9]);
}

#[test]
fn target_list_without_transactions() {
    let a1 = Identity { bytes: [1; 32] };
    let o1 = Identity { bytes: [9; 32] };
    let ts = build_targets(&vec![a1], &vec![o1], false);
    assert_eq!(ts.len(), 2);
    assert_eq!(ts[0].kind, SubscriptionKind::Account);
    assert_eq!(ts[1].kind, SubscriptionKind::Program);
}

#[test]
fn first_worker_failure_ends_run_referencing_target() {
    // Target #3 of 5 closes immediately after opening: the run fails
    // referencing that target, and the supervisor is done.
    let mut sup = Supervisor::new(5);
    assert!(matches!(
        sup.on_event(&SupervisorEvent::Tick),
        SupervisorAction::Refresh
    ));
    assert!(sup.run_failure().is_none());
    let action = sup.on_event(&SupervisorEvent::WorkerFinished {
        index: 2,
        kind: FailureKind::StreamClosed,
    });
    match action {
        SupervisorAction::Stop { failure } => {
            assert_eq!(failure.target_index, 2);
            assert_eq!(failure.kind, FailureKind::StreamClosed);
        }
        _ => panic!("the first completion must stop the run"),
    }
    assert_eq!(
        sup.run_failure(),
        Some(RunFailure {
            target_index: 2,
            kind: FailureKind::StreamClosed,
        })
    );
}

#[test]
fn empty_run_completes_without_failure() {
    let mut sup = Supervisor::new(0);
    assert!(matches!(
        sup.on_event(&SupervisorEvent::Drained),
        SupervisorAction::Complete
    ));
    assert!(sup.run_failure().is_none());
}

#[test]
fn worker_treats_close_like_error() {
    assert!(matches!(
        worker_step(&WorkerEvent::Item),
        WorkerDirective::Continue
    ));
    assert_eq!(
        worker_step(&WorkerEvent::Closed),
        WorkerDirective::Finish {
            kind: FailureKind::StreamClosed
        }
    );
    assert_eq!(
        worker_step(&WorkerEvent::OpenFailed),
        WorkerDirective::Finish {
            kind: FailureKind::Connection
        }
    );
    assert_eq!(
        worker_step(&WorkerEvent::TransportError),
        WorkerDirective::Finish {
            kind: FailureKind::Protocol
        }
    );
}

#[test]
fn sink_counts_in_counter_mode() {
    let mut s = ReportSink::new(ReportMode::CounterOnly);
    assert_eq!(s.on_event(), EventAction::Counted);
    assert_eq!(s.on_event(), EventAction::Counted);
    assert_eq!(s.counted(), 2);
}

#[test]
fn sink_emits_in_verbose_mode() {
    let mut s = ReportSink::new(ReportMode::Verbose);
    assert_eq!(s.on_event(), EventAction::Emit);
    assert_eq!(s.counted(), 0);
}

#[test]
fn failure_labels_are_stable() {
    assert_eq!(FailureKind::Connection.label(), "connection failed");
    assert_eq!(FailureKind::Protocol.label(), "protocol error");
    assert_eq!(FailureKind::StreamClosed.label(), "stream finished");
}

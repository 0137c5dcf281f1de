//! The fan-out supervisor: expands a fixed set of targets into one worker
//! per `(identity, subscription-kind)` pair, and fails the whole run as
//! soon as any worker terminates.
//!
//! The supervisor's own bookkeeping is constant-size: it never walks the
//! worker set, it only reacts to the first completion.

use vstd::prelude::*;
use crate::errors::FailureKind;
use crate::identity::Identity;

verus! {

/// The kind of subscription a worker drives for its identity.
#[derive(Debug, Clone, Copy, PartialEq, Eq, Structural)]
pub enum SubscriptionKind {
    /// Updates of the account itself.
    Account,
    /// Updates of the accounts owned by the program.
    Program,
    /// Transaction log updates mentioning the identity.
    Transactions,
}

/// One fan-out target: an identity and the subscription kind to open for
/// it.
#[derive(Debug, Clone, Copy)]
pub struct Target {
    pub identity: Identity,
    pub kind: SubscriptionKind,
}

/// The declarative expansion of a fan-out run: one account subscription
/// per account, one program subscription per owner, and — when requested —
/// one transaction subscription per account and per owner, in that order.
pub open spec fn target_plan(
    accounts: Seq<Identity>,
    owners: Seq<Identity>,
    with_transactions: bool,
) -> Seq<Target> {
    let acc = accounts.map_values(
        |a: Identity| Target { identity: a, kind: SubscriptionKind::Account },
    );
    let own = owners.map_values(
        |o: Identity| Target { identity: o, kind: SubscriptionKind::Program },
    );
    let tx = (accounts + owners).map_values(
        |a: Identity| Target { identity: a, kind: SubscriptionKind::Transactions },
    );
    if with_transactions {
        acc + own + tx
    } else {
        acc + own
    }
}

/// Expand the target list for a run: every account, every owner, and —
/// when `with_transactions` is set — a transaction subscription for each
/// of them, in the declared order. Workers are later spawned uniformly
/// from this list, one per element.
pub fn build_targets(
    accounts: &Vec<Identity>,
    owners: &Vec<Identity>,
    with_transactions: bool,
) -> (ts: Vec<Target>)
    ensures
        ts@ == target_plan(accounts@, owners@, with_transactions),
{
    let ghost plan = target_plan(accounts@, owners@, with_transactions);
    let mut ts: Vec<Target> = Vec::new();
    let mut i: usize = 0;
    while i < accounts.len()
        invariant
            i <= accounts@.len(),
            ts@ =~= accounts@.take(i as int).map_values(
                |a: Identity| Target { identity: a, kind: SubscriptionKind::Account },
            ),
        decreases accounts@.len() - i,
    {
        ts.push(Target { identity: accounts[i], kind: SubscriptionKind::Account });
        proof {
            assert(accounts@.take(i + 1).drop_last() =~= accounts@.take(i as int));
        }
        i += 1;
    }
    proof {
        assert(accounts@.take(accounts@.len() as int) =~= accounts@);
    }

    let ghost acc = accounts@.map_values(
        |a: Identity| Target { identity: a, kind: SubscriptionKind::Account },
    );
    let mut i: usize = 0;
    while i < owners.len()
        invariant
            i <= owners@.len(),
            acc == accounts@.map_values(
                |a: Identity| Target { identity: a, kind: SubscriptionKind::Account },
            ),
            ts@ =~= acc + owners@.take(i as int).map_values(
                |o: Identity| Target { identity: o, kind: SubscriptionKind::Program },
            ),
        decreases owners@.len() - i,
    {
        ts.push(Target { identity: owners[i], kind: SubscriptionKind::Program });
        proof {
            assert(owners@.take(i + 1).drop_last() =~= owners@.take(i as int));
        }
        i += 1;
    }
    proof {
        assert(owners@.take(owners@.len() as int) =~= owners@);
    }

    if with_transactions {
        let ghost own = owners@.map_values(
            |o: Identity| Target { identity: o, kind: SubscriptionKind::Program },
        );
        let ghost both = accounts@ + owners@;
        let mut i: usize = 0;
        while i < accounts.len()
            invariant
                i <= accounts@.len(),
                acc == accounts@.map_values(
                    |a: Identity| Target { identity: a, kind: SubscriptionKind::Account },
                ),
                own == owners@.map_values(
                    |o: Identity| Target { identity: o, kind: SubscriptionKind::Program },
                ),
                both == accounts@ + owners@,
                ts@ =~= acc + own + both.take(i as int).map_values(
                    |a: Identity| Target { identity: a, kind: SubscriptionKind::Transactions },
                ),
            decreases accounts@.len() - i,
        {
            ts.push(Target { identity: accounts[i], kind: SubscriptionKind::Transactions });
            proof {
                assert(both.take(i + 1).drop_last() =~= both.take(i as int));
                assert(both[i as int] == accounts@[i as int]);
            }
            i += 1;
        }
        let ghost na = accounts@.len() as int;
        let mut j: usize = 0;
        while j < owners.len()
            invariant
                j <= owners@.len(),
                na == accounts@.len(),
                acc == accounts@.map_values(
                    |a: Identity| Target { identity: a, kind: SubscriptionKind::Account },
                ),
                own == owners@.map_values(
                    |o: Identity| Target { identity: o, kind: SubscriptionKind::Program },
                ),
                both == accounts@ + owners@,
                ts@ =~= acc + own + both.take(na + j).map_values(
                    |a: Identity| Target { identity: a, kind: SubscriptionKind::Transactions },
                ),
            decreases owners@.len() - j,
        {
            ts.push(Target { identity: owners[j], kind: SubscriptionKind::Transactions });
            proof {
                assert(both.take(na + j + 1).drop_last() =~= both.take(na + j));
                assert(both[na + j] == owners@[j as int]);
            }
            j += 1;
        }
        proof {
            assert(both.take(both.len() as int) =~= both);
            assert(ts@ =~= plan);
        }
    } else {
        proof {
            assert(ts@ =~= plan);
        }
    }
    ts
}

/// The failure that ended a fan-out run: which target's worker finished,
/// and how.
#[derive(Debug, Clone, Copy, PartialEq, Eq, Structural)]
pub struct RunFailure {
    pub target_index: usize,
    pub kind: FailureKind,
}

/// A worker's view of one step of its subscription stream.
#[derive(Debug, Clone, Copy, PartialEq, Eq, Structural)]
pub enum WorkerEvent {
    /// The subscription could not be opened.
    OpenFailed,
    /// A notification arrived.
    Item,
    /// The stream ended without a transport error.
    Closed,
    /// The stream yielded a transport or decoding error.
    TransportError,
}

/// What a worker does after one stream step.
#[derive(Debug, Clone, Copy, PartialEq, Eq, Structural)]
pub enum WorkerDirective {
    /// Report the item to the sink and keep pulling.
    Continue,
    /// Terminate with this failure. There is no success terminal state:
    /// these subscriptions are expected to run indefinitely, so even a
    /// graceful close is a failure.
    Finish { kind: FailureKind },
}

/// Decide a worker's next move from what its stream yielded. A closed
/// stream is treated exactly like an error: the worker has no success
/// terminal state.
pub fn worker_step(e: &WorkerEvent) -> (d: WorkerDirective)
    ensures
        *e is Item ==> d is Continue,
        *e is OpenFailed ==> d == (WorkerDirective::Finish { kind: FailureKind::Connection }),
        *e is Closed ==> d == (WorkerDirective::Finish { kind: FailureKind::StreamClosed }),
        *e is TransportError ==> d == (WorkerDirective::Finish { kind: FailureKind::Protocol }),
{
    match e {
        WorkerEvent::Item => WorkerDirective::Continue,
        WorkerEvent::OpenFailed => WorkerDirective::Finish { kind: FailureKind::Connection },
        WorkerEvent::Closed => WorkerDirective::Finish { kind: FailureKind::StreamClosed },
        WorkerEvent::TransportError => WorkerDirective::Finish { kind: FailureKind::Protocol },
    }
}

/// What the supervisor wakes up on.
#[derive(Debug, Clone, Copy, PartialEq, Eq, Structural)]
pub enum SupervisorEvent {
    /// The periodic display tick.
    Tick,
    /// The worker for target `index` terminated, always a failure.
    WorkerFinished { index: usize, kind: FailureKind },
    /// No workers are left to wait on (only possible for an empty run).
    Drained,
}

/// What the supervisor does next.
#[derive(Debug, Clone, Copy, PartialEq, Eq, Structural)]
pub enum SupervisorAction {
    /// Refresh the progress display and keep waiting.
    Refresh,
    /// Stop the run: surface this failure, abandon every other worker
    /// without waiting for its shutdown.
    Stop { failure: RunFailure },
    /// Every worker was consumed without a completion: the run ends
    /// without a failure.
    Complete,
}

/// The fan-out supervisor: how many workers were spawned, and the failure
/// that ended the run, once one has.
pub struct Supervisor {
    total: usize,
    outcome: Option<RunFailure>,
}

impl Supervisor {
    /// How many workers this run spawned.
    pub closed spec fn worker_count(self) -> nat {
        self.total as nat
    }

    /// The failure that ended the run, if one has.
    pub closed spec fn failure(self) -> Option<RunFailure> {
        self.outcome
    }

    /// A supervisor over `total` spawned workers, none finished yet.
    pub fn new(total: usize) -> (s: Supervisor)
        ensures
            s.worker_count() == total,
            s.failure() is None,
    {
        Supervisor { total, outcome: None }
    }

    /// The run's failure so far, if any.
    pub fn run_failure(&self) -> (r: Option<RunFailure>)
        ensures
            r == self.failure(),
    {
        self.outcome
    }

    /// React to one wake-up. A tick only refreshes the display. The first
    /// worker to finish — always a failure — becomes the run's outcome and
    /// stops the run; the bookkeeping is constant-time in the worker
    /// count. Only an active run (no failure yet) may be driven.
    pub fn on_event(&mut self, e: &SupervisorEvent) -> (a: SupervisorAction)
        requires
            old(self).failure() is None,
            *e matches SupervisorEvent::WorkerFinished { index, .. } ==> index < old(
                self,
            ).worker_count(),
        ensures
            final(self).worker_count() == old(self).worker_count(),
            *e is Tick ==> a is Refresh && final(self).failure() is None,
            *e matches SupervisorEvent::WorkerFinished { index, kind } ==> {
                &&& a == (SupervisorAction::Stop {
                    failure: RunFailure { target_index: index, kind },
                })
                &&& final(self).failure() == Some(RunFailure { target_index: index, kind })
            },
            *e is Drained ==> a is Complete && final(self).failure() is None,
    {
        match e {
            SupervisorEvent::Tick => SupervisorAction::Refresh,
            SupervisorEvent::WorkerFinished { index, kind } => {
                let failure = RunFailure { target_index: *index, kind: *kind };
                self.outcome = Some(failure);
                SupervisorAction::Stop { failure }
            },
            SupervisorEvent::Drained => SupervisorAction::Complete,
        }
    }
}

} // verus!

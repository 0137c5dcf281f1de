//! The progress/report sink: the two reporting strategies a run can be
//! configured with.
//!
//! A sink is constructed with its strategy once; the core then performs
//! exactly one of the two effects per received item. In counter-only mode
//! the shared message counter advances; in verbose mode the caller is
//! directed to hand a rendered line to its message hook instead.

use vstd::prelude::*;

verus! {

/// The reporting strategy, fixed at construction time.
#[derive(Debug, Clone, Copy, PartialEq, Eq, Structural)]
pub enum ReportMode {
    /// Only keep a running count of received messages.
    CounterOnly,
    /// Emit one human-readable line per received message.
    Verbose,
}

/// What the caller must do for the item just received.
#[derive(Debug, Clone, Copy, PartialEq, Eq, Structural)]
pub enum EventAction {
    /// The sink counted the item; nothing to print.
    Counted,
    /// Hand a rendered line for the item to the message hook.
    Emit,
}

/// A report sink: the chosen strategy and the count of messages observed
/// across all workers.
pub struct ReportSink {
    mode: ReportMode,
    counter: u64,
}

impl ReportSink {
    /// The strategy this sink was constructed with.
    pub closed spec fn mode_of(self) -> ReportMode {
        self.mode
    }

    /// How many items have been counted.
    pub closed spec fn count(self) -> u64 {
        self.counter
    }

    /// A fresh sink with the given strategy and a zero counter.
    pub fn new(mode: ReportMode) -> (s: ReportSink)
        ensures
            s.mode_of() == mode,
            s.count() == 0,
    {
        ReportSink { mode, counter: 0 }
    }

    /// The current message count.
    pub fn counted(&self) -> (n: u64)
        ensures
            n == self.count(),
    {
        self.counter
    }

    /// Exactly one effect per received item: in counter-only mode the
    /// counter advances (saturating at its maximum) and nothing is
    /// printed; in verbose mode the counter is untouched and the caller
    /// must emit the item's line.
    pub fn on_event(&mut self) -> (a: EventAction)
        ensures
            final(self).mode_of() == old(self).mode_of(),
            old(self).mode_of() is CounterOnly ==> {
                &&& a is Counted
                &&& old(self).count() < u64::MAX ==> final(self).count() == old(self).count() + 1
                &&& old(self).count() == u64::MAX ==> final(self).count() == u64::MAX
            },
            old(self).mode_of() is Verbose ==> a is Emit && final(self).count() == old(
                self,
            ).count(),
    {
        match self.mode {
            ReportMode::CounterOnly => {
                if self.counter < u64::MAX {
                    self.counter = self.counter + 1;
                }
                EventAction::Counted
            },
            ReportMode::Verbose => EventAction::Emit,
        }
    }
}

} // verus!

use vstd::prelude::*;
use crate::status::DomainStatus;

verus! {

/// What the scan loop does next.
#[derive(Debug, Clone, Copy, PartialEq, Eq, Structural)]
pub enum DispatchAction {
    /// Start the probe of the candidate at this index.
    Launch(usize),
    /// Wait the fixed submission delay.
    AwaitDelay,
    /// Wait for a running probe to report its result.
    AwaitProbe,
    /// Every candidate was probed and every result collected.
    Finished,
}

/// What happened since the last decision.
#[derive(Debug, Clone, Copy, PartialEq, Eq, Structural)]
pub enum DispatchEvent {
    /// The probe asked for by `Launch` was started.
    Launched,
    /// The submission delay has passed.
    DelayElapsed,
    /// A running probe reported a result with this status.
    ProbeFinished(DomainStatus),
}

/// Admission control of a scan: at most `workers` probes run at once, and
/// after each start the loop waits the submission delay.
#[derive(Debug, Clone, Copy, PartialEq, Eq, Structural)]
pub struct Dispatcher {
    pub workers: usize,
    pub total: usize,
    pub next: usize,
    pub in_flight: usize,
    pub completed: usize,
    pub pacing: bool,
}

impl Dispatcher {
    pub open spec fn wf(self) -> bool {
        &&& self.workers > 0
        &&& self.next <= self.total
        &&& self.in_flight <= self.workers
        &&& self.completed + self.in_flight == self.next
    }

    /// The decision taken in a state.
    pub open spec fn action_of(self) -> DispatchAction {
        if self.pacing {
            DispatchAction::AwaitDelay
        } else if self.next < self.total && self.in_flight < self.workers {
            DispatchAction::Launch(self.next)
        } else if self.in_flight > 0 {
            DispatchAction::AwaitProbe
        } else {
            DispatchAction::Finished
        }
    }

    /// The state after an event; an event that does not fit the state
    /// changes nothing.
    pub open spec fn after(self, e: DispatchEvent) -> Dispatcher {
        match e {
            DispatchEvent::Launched => if !self.pacing && self.next < self.total && self.in_flight < self.workers {
                Dispatcher { next: (self.next + 1) as usize, in_flight: (self.in_flight + 1) as usize, pacing: true, ..self }
            } else {
                self
            },
            DispatchEvent::DelayElapsed => Dispatcher { pacing: false, ..self },
            DispatchEvent::ProbeFinished(_) => if self.in_flight > 0 {
                Dispatcher { in_flight: (self.in_flight - 1) as usize, completed: (self.completed + 1) as usize, ..self }
            } else {
                self
            },
        }
    }

    /// The state after a sequence of events.
    pub open spec fn after_all(self, es: Seq<DispatchEvent>) -> Dispatcher
        decreases es.len(),
    {
        if es.len() == 0 {
            self
        } else {
            self.after(es[0]).after_all(es.drop_first())
        }
    }

    pub open spec fn new_spec(workers: usize, total: usize) -> Dispatcher {
        Dispatcher { workers, total, next: 0, in_flight: 0, completed: 0, pacing: false }
    }

    /// A dispatcher for `total` candidates and `workers` concurrent probes.
    pub fn new(workers: usize, total: usize) -> (d: Dispatcher)
        requires
            workers > 0,
        ensures
            d.wf(),
            d == Dispatcher::new_spec(workers, total),
    {
        Dispatcher { workers, total, next: 0, in_flight: 0, completed: 0, pacing: false }
    }

    pub fn next_action(&self) -> (a: DispatchAction)
        ensures
            a == self.action_of(),
    {
        if self.pacing {
            DispatchAction::AwaitDelay
        } else if self.next < self.total && self.in_flight < self.workers {
            DispatchAction::Launch(self.next)
        } else if self.in_flight > 0 {
            DispatchAction::AwaitProbe
        } else {
            DispatchAction::Finished
        }
    }

    pub fn apply(&mut self, e: DispatchEvent)
        requires
            old(self).wf(),
        ensures
            final(self).wf(),
            *final(self) == old(self).after(e),
    {
        match e {
            DispatchEvent::Launched => {
                if !self.pacing && self.next < self.total && self.in_flight < self.workers {
                    self.next = self.next + 1;
                    self.in_flight = self.in_flight + 1;
                    self.pacing = true;
                }
            },
            DispatchEvent::DelayElapsed => {
                self.pacing = false;
            },
            DispatchEvent::ProbeFinished(_) => {
                if self.in_flight > 0 {
                    self.in_flight = self.in_flight - 1;
                    self.completed = self.completed + 1;
                }
            },
        }
    }
}

/// Every event keeps a well-formed dispatcher well-formed.
pub proof fn lemma_after_wf(d: Dispatcher, e: DispatchEvent)
    requires
        d.wf(),
    ensures
        d.after(e).wf(),
{
}

/// Whatever events come, the number of running probes never exceeds the
/// number of workers, and the workers never change.
pub proof fn lemma_in_flight_bounded(d: Dispatcher, es: Seq<DispatchEvent>)
    requires
        d.wf(),
    ensures
        d.after_all(es).wf(),
        d.after_all(es).in_flight <= d.workers,
        d.after_all(es).workers == d.workers,
    decreases es.len(),
{
    if es.len() > 0 {
        lemma_after_wf(d, es[0]);
        lemma_in_flight_bounded(d.after(es[0]), es.drop_first());
    }
}

/// A probe that ended in an error frees its slot exactly as any other result
/// does, so the candidates after it are still launched.
pub proof fn lemma_failure_keeps_dispatching(d: Dispatcher, s: DomainStatus)
    requires
        d.wf(),
        d.in_flight > 0,
        !d.pacing,
        d.next < d.total,
    ensures
        d.after(DispatchEvent::ProbeFinished(DomainStatus::Error)) == d.after(DispatchEvent::ProbeFinished(s)),
        d.after(DispatchEvent::ProbeFinished(DomainStatus::Error)).action_of() == DispatchAction::Launch(d.next),
{
}

/// A run that is finished has launched every candidate and collected every
/// result.
pub proof fn lemma_finished_is_complete(d: Dispatcher)
    requires
        d.wf(),
        d.action_of() == DispatchAction::Finished,
    ensures
        d.next == d.total,
        d.completed == d.total,
        d.in_flight == 0,
{
}

} // verus!

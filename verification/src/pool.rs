//! The coordinator of one batch: which unit a free worker takes next, how
//! many units are in flight, and when the batch has reached the barrier
//! behind which it is sorted and committed.

use crate::error::Fatal;
use crate::retry::Verdict;
use vstd::prelude::*;

verus! {

/// What the coordinator does when a worker is free or has reported back.
#[derive(Clone, Copy, Debug, PartialEq, Eq, Structural)]
pub enum Dispatch {
    /// Hand the unit with this number to a worker.
    Run { unit: usize },
    /// Nothing can be handed out until a unit in flight reports back.
    Wait,
    /// Every unit has completed: the batch may be sorted and committed.
    Barrier,
    /// A unit has failed for good and nothing is in flight any more: the
    /// run ends with this failure and commits nothing of the batch.
    Halt(Fatal),
}

/// The state of one batch of `units` work units, numbered from zero, that
/// at most `workers` workers fetch at a time.
#[derive(Clone, Copy, Debug, PartialEq, Eq, Structural)]
pub struct WorkerPool {
    /// How many units may be in flight at once.
    pub workers: usize,
    /// How many units the batch has.
    pub units: usize,
    /// The number of the next unit to hand out.
    pub next: usize,
    /// How many units are in flight.
    pub in_flight: usize,
    /// How many units have completed, with records or without.
    pub completed: usize,
    /// The first failure that ended a unit for good.
    pub fatal: Option<Fatal>,
}

impl WorkerPool {
    /// No more units are in flight than there are workers, and every unit
    /// handed out is in flight or completed, or has failed for good.
    pub open spec fn wf(self) -> bool {
        &&& self.workers >= 1
        &&& self.in_flight <= self.workers
        &&& self.next <= self.units
        &&& self.completed + self.in_flight <= self.next
        &&& self.fatal is None ==> self.completed + self.in_flight == self.next
    }

    /// Every unit of the batch has completed and none has failed for good.
    pub open spec fn at_barrier(self) -> bool {
        self.fatal is None && self.completed == self.units
    }

    /// The state after a free worker has asked for work, and the answer.
    pub open spec fn spec_dispatch(self) -> (WorkerPool, Dispatch) {
        match self.fatal {
            Some(failure) => if self.in_flight == 0 {
                (self, Dispatch::Halt(failure))
            } else {
                (self, Dispatch::Wait)
            },
            None => if self.next < self.units && self.in_flight < self.workers {
                (
                    WorkerPool {
                        next: (self.next + 1) as usize,
                        in_flight: (self.in_flight + 1) as usize,
                        ..self
                    },
                    Dispatch::Run { unit: self.next },
                )
            } else if self.in_flight > 0 || self.completed < self.units {
                (self, Dispatch::Wait)
            } else {
                (self, Dispatch::Barrier)
            },
        }
    }

    /// The state after a unit in flight has reported `verdict`: a unit that
    /// is delivered or empty has completed, one that is given up leaves the
    /// first failure behind, and one that is tried again stays in flight.
    pub open spec fn spec_report(self, verdict: Verdict) -> WorkerPool {
        if self.in_flight == 0 {
            self
        } else {
            match verdict {
                Verdict::Deliver | Verdict::Empty => WorkerPool {
                    in_flight: (self.in_flight - 1) as usize,
                    completed: (self.completed + 1) as usize,
                    ..self
                },
                Verdict::Abort(failure) => WorkerPool {
                    in_flight: (self.in_flight - 1) as usize,
                    fatal: if self.fatal is None {
                        Some(failure)
                    } else {
                        self.fatal
                    },
                    ..self
                },
                Verdict::Retry { .. } => self,
            }
        }
    }

    /// The coordinator of a batch of `units` units for `workers` workers, or
    /// `None` where there is no worker.
    pub fn new(workers: usize, units: usize) -> (r: Option<WorkerPool>)
        ensures
            r == if workers >= 1 {
                Some(
                    WorkerPool {
                        workers,
                        units,
                        next: 0,
                        in_flight: 0,
                        completed: 0,
                        fatal: None,
                    },
                )
            } else {
                None::<WorkerPool>
            },
            r matches Some(pool) ==> pool.wf(),
    {
        if workers >= 1 {
            Some(WorkerPool { workers, units, next: 0, in_flight: 0, completed: 0, fatal: None })
        } else {
            None
        }
    }

    /// Whether the counts of the coordinator go together.
    pub fn is_valid(&self) -> (r: bool)
        ensures
            r == self.wf(),
    {
        if self.workers == 0 || self.in_flight > self.workers || self.next > self.units {
            return false;
        }
        if self.completed > self.next || self.in_flight > self.next - self.completed {
            return false;
        }
        self.fatal.is_some() || self.in_flight == self.next - self.completed
    }

    /// Answers a free worker: the next unit, as long as a worker is free,
    /// a unit is left and no unit has failed for good.
    pub fn dispatch(&mut self) -> (r: Dispatch)
        requires
            old(self).wf(),
        ensures
            (*final(self), r) == old(self).spec_dispatch(),
            final(self).wf(),
            r is Barrier <==> old(self).at_barrier() && old(self).in_flight == 0,
            r is Run ==> old(self).fatal is None && old(self).in_flight < old(self).workers,
            r is Wait ==> final(self).in_flight > 0,
    {
        match self.fatal {
            Some(failure) => {
                if self.in_flight == 0 {
                    Dispatch::Halt(failure)
                } else {
                    Dispatch::Wait
                }
            },
            None => {
                if self.next < self.units && self.in_flight < self.workers {
                    let unit: usize = self.next;
                    self.next = self.next + 1;
                    self.in_flight = self.in_flight + 1;
                    Dispatch::Run { unit }
                } else if self.in_flight > 0 || self.completed < self.units {
                    Dispatch::Wait
                } else {
                    Dispatch::Barrier
                }
            },
        }
    }

    /// Takes the verdict on a unit in flight.  Returns the number of units
    /// that have completed.
    pub fn report(&mut self, verdict: Verdict) -> (r: usize)
        requires
            old(self).wf(),
        ensures
            *final(self) == old(self).spec_report(verdict),
            final(self).wf(),
            r == final(self).completed,
    {
        if self.in_flight > 0 {
            match verdict {
                Verdict::Deliver | Verdict::Empty => {
                    self.in_flight = self.in_flight - 1;
                    self.completed = self.completed + 1;
                },
                Verdict::Abort(failure) => {
                    self.in_flight = self.in_flight - 1;
                    if self.fatal.is_none() {
                        self.fatal = Some(failure);
                    }
                },
                Verdict::Retry { .. } => {},
            }
        }
        self.completed
    }

    /// Whether every unit of the batch has completed and none has failed
    /// for good.
    pub fn barrier_reached(&self) -> (r: bool)
        ensures
            r == self.at_barrier(),
    {
        self.fatal.is_none() && self.completed == self.units
    }
}

/// Once a unit has failed for good no further unit is handed out, and the
/// batch never reaches its barrier.
pub proof fn lemma_fatal_stops_dispatch(pool: WorkerPool, verdict: Verdict)
    requires
        pool.fatal is Some,
    ensures
        !(pool.spec_dispatch().1 is Run),
        !(pool.spec_dispatch().1 is Barrier),
        pool.spec_dispatch().0.fatal == pool.fatal,
        pool.spec_report(verdict).fatal == pool.fatal,
        !pool.spec_report(verdict).at_barrier(),
{
}

/// The barrier is reached only when every unit has been handed out and has
/// completed and nothing is in flight.
pub proof fn lemma_barrier_is_complete(pool: WorkerPool)
    requires
        pool.wf(),
        pool.at_barrier(),
    ensures
        pool.next == pool.units,
        pool.in_flight == 0,
        pool.spec_dispatch().1 is Barrier,
{
}

} // verus!

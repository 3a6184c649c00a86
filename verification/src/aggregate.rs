//! Collecting what the workers of one batch deliver, up to the barrier
//! after which the batch is sorted and committed.

use crate::pool::WorkerPool;
use crate::record::{adjacent_sorted, sorted, OrderKey, Record};
use crate::writer::{
    pick_marked, plan_commit, plan_commit_marked, unwritable, writable, CommitPlan,
};
use vstd::prelude::*;

verus! {

/// The records of one batch as its work units complete, in the order of
/// arrival.  The collection is shared by all workers behind one lock; the
/// order of arrival decides nothing about the order of the commit.
#[derive(Clone, Debug, PartialEq, Eq)]
pub struct Aggregator<P> {
    /// The records delivered so far.
    pub records: Vec<Record<P>>,
}

impl<P> Aggregator<P> {
    /// An empty collection.
    pub fn new() -> (r: Aggregator<P>)
        ensures
            r.records@ == Seq::<Record<P>>::empty(),
    {
        Aggregator { records: Vec::new() }
    }

    /// Takes in the records of a unit that succeeded.  Returns the number
    /// of records held.
    pub fn deliver(&mut self, batch: Vec<Record<P>>) -> (r: usize)
        ensures
            final(self).records@ == old(self).records@ + batch@,
            r == final(self).records@.len(),
    {
        let mut batch = batch;
        self.records.append(&mut batch);
        self.records.len()
    }

    /// Past the barrier of `pool`, hands the batch over in the order of the
    /// commit: the records to write sorted under `order`, the malformed
    /// ones set aside.  Before the barrier, and after a unit has failed for
    /// good, nothing is sorted and the collection comes back as it is.
    pub fn finish(self, pool: &WorkerPool, order: OrderKey, drop_malformed: bool) -> (r: Result<
        CommitPlan<P>,
        Aggregator<P>,
    >)
        ensures
            match r {
                Ok(plan) => {
                    &&& pool.at_barrier()
                    &&& sorted(plan.rows@, order)
                    &&& adjacent_sorted(plan.rows@, order)
                    &&& plan.rows@.to_multiset() == self.records@.filter(
                        writable(drop_malformed),
                    ).to_multiset()
                    &&& plan.rows@.len() == self.records@.filter(writable(drop_malformed)).len()
                    &&& plan.skipped@ == self.records@.filter(unwritable(drop_malformed))
                },
                Err(back) => !pool.at_barrier() && back == self,
            },
    {
        if pool.barrier_reached() {
            Ok(plan_commit(self.records, order, drop_malformed))
        } else {
            Err(self)
        }
    }

    /// Past the barrier of `pool`, hands the batch over in the order of the
    /// commit, leaving out the records that the caller has marked as
    /// malformed, `marks[i]` standing for the record that arrived as number
    /// `i`.  Before the barrier, and after a unit has failed for good,
    /// nothing is sorted and the collection comes back as it is.
    pub fn finish_marked(self, pool: &WorkerPool, order: OrderKey, marks: &Vec<bool>) -> (r:
        Result<CommitPlan<P>, Aggregator<P>>)
        ensures
            match r {
                Ok(plan) => {
                    &&& pool.at_barrier()
                    &&& sorted(plan.rows@, order)
                    &&& adjacent_sorted(plan.rows@, order)
                    &&& plan.rows@.to_multiset() == pick_marked(
                        self.records@,
                        marks@,
                        false,
                    ).to_multiset()
                    &&& plan.rows@.len() == pick_marked(self.records@, marks@, false).len()
                    &&& plan.skipped@ == pick_marked(self.records@, marks@, true)
                },
                Err(back) => !pool.at_barrier() && back == self,
            },
    {
        if pool.barrier_reached() {
            Ok(plan_commit_marked(self.records, marks, order))
        } else {
            Err(self)
        }
    }
}

} // verus!

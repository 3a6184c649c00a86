//! Committing a sorted batch to one partition and checking the row count.

use crate::error::Fatal;
use crate::record::{
    adjacent_sorted, lemma_sorted_adjacent, sorted, symbol_bytes, OrderKey, Record,
};
use crate::sort::sort_records;
use vstd::prelude::*;

verus! {

/// A byte that prints as a visible ASCII character.
pub open spec fn graphic(byte: u8) -> bool {
    0x21 <= byte <= 0x7e
}

/// A symbol is well formed when each of its bytes is a visible ASCII
/// character.
pub open spec fn well_formed_symbol(symbol: String) -> bool {
    forall|i: int| 0 <= i < symbol_bytes(symbol).len() ==> graphic(#[trigger] symbol_bytes(symbol)[i])
}

/// Whether every byte of `symbol` is a visible ASCII character.
pub fn symbol_is_graphic(symbol: &String) -> (r: bool)
    ensures
        r == well_formed_symbol(*symbol),
{
    let bytes = symbol.as_str().as_bytes();
    let mut i: usize = 0;
    while i < bytes.len()
        invariant
            bytes@ == symbol_bytes(*symbol),
            i <= bytes@.len(),
            forall|j: int| 0 <= j < i ==> graphic(#[trigger] bytes@[j]),
        decreases bytes@.len() - i,
    {
        if bytes[i] < 0x21 || bytes[i] > 0x7e {
            assert(!graphic(symbol_bytes(*symbol)[i as int]));
            return false;
        }
        i = i + 1;
    }
    true
}

/// The test that picks the records that are written: all of them, or, where
/// malformed records are dropped, those with a well-formed symbol.
pub open spec fn writable<P>(drop_malformed: bool) -> spec_fn(Record<P>) -> bool {
    |r: Record<P>| !drop_malformed || well_formed_symbol(r.symbol)
}

/// The test that picks the records that are left out.
pub open spec fn unwritable<P>(drop_malformed: bool) -> spec_fn(Record<P>) -> bool {
    |r: Record<P>| drop_malformed && !well_formed_symbol(r.symbol)
}

/// What is to be appended to a partition, in order, and what was left out.
#[derive(Clone, Debug, PartialEq, Eq)]
pub struct CommitPlan<P> {
    /// The rows to append, first to last.
    pub rows: Vec<Record<P>>,
    /// The malformed records, in the order in which they arrived.
    pub skipped: Vec<Record<P>>,
}

/// Parts the records of a batch into those to write and those to leave out,
/// each part in the order of arrival.
pub fn split_malformed<P>(records: Vec<Record<P>>, drop_malformed: bool) -> (r: CommitPlan<P>)
    ensures
        r.rows@ == records@.filter(writable(drop_malformed)),
        r.skipped@ == records@.filter(unwritable(drop_malformed)),
{
    let mut rows: Vec<Record<P>> = Vec::new();
    let mut skipped: Vec<Record<P>> = Vec::new();
    let ghost keep = writable::<P>(drop_malformed);
    let ghost drop = unwritable::<P>(drop_malformed);
    proof {
        reveal(Seq::filter);
        assert(records@.take(0) =~= Seq::<Record<P>>::empty());
    }
    for record in it: records
        invariant
            it.seq() == records@,
            keep == writable::<P>(drop_malformed),
            drop == unwritable::<P>(drop_malformed),
            rows@ == records@.take(it.index() as int).filter(keep),
            skipped@ == records@.take(it.index() as int).filter(drop),
    {
        proof {
            let i = it.index() as int;
            assert(records@.take(i + 1) =~= records@.take(i).push(records@[i]));
            records@.take(i).lemma_filter_push(records@[i], keep);
            records@.take(i).lemma_filter_push(records@[i], drop);
        }
        if drop_malformed && !symbol_is_graphic(&record.symbol) {
            skipped.push(record);
        } else {
            rows.push(record);
        }
    }
    proof {
        assert(records@.take(records@.len() as int) =~= records@);
    }
    CommitPlan { rows, skipped }
}

/// Brings a batch into the order in which it is committed: the records to
/// write, sorted under `order`, and the malformed ones set aside.
pub fn plan_commit<P>(records: Vec<Record<P>>, order: OrderKey, drop_malformed: bool) -> (r:
    CommitPlan<P>)
    ensures
        sorted(r.rows@, order),
        adjacent_sorted(r.rows@, order),
        r.rows@.to_multiset() == records@.filter(writable(drop_malformed)).to_multiset(),
        r.rows@.len() == records@.filter(writable(drop_malformed)).len(),
        r.skipped@ == records@.filter(unwritable(drop_malformed)),
{
    let plan = split_malformed(records, drop_malformed);
    let rows = sort_records(plan.rows, order);
    proof {
        lemma_sorted_adjacent(rows@, order);
    }
    CommitPlan { rows, skipped: plan.skipped }
}

/// Record `i` of a batch is marked as malformed.
pub open spec fn marked(marks: Seq<bool>, i: int) -> bool {
    0 <= i < marks.len() && marks[i]
}

/// The records of a batch that are marked, or those that are not, in the
/// order of arrival.  A record without a mark of its own counts as not
/// marked.
pub open spec fn pick_marked<P>(records: Seq<Record<P>>, marks: Seq<bool>, want: bool) -> Seq<
    Record<P>,
>
    decreases records.len(),
{
    if records.len() == 0 {
        records
    } else if marked(marks, records.len() - 1) == want {
        pick_marked(records.drop_last(), marks, want).push(records.last())
    } else {
        pick_marked(records.drop_last(), marks, want)
    }
}

/// Parts the records of a batch by the marks that the caller has put on
/// them, `marks[i]` telling whether record `i` is malformed: the records to
/// write and the marked ones, each part in the order of arrival.
pub fn split_marked<P>(records: Vec<Record<P>>, marks: &Vec<bool>) -> (r: CommitPlan<P>)
    ensures
        r.rows@ == pick_marked(records@, marks@, false),
        r.skipped@ == pick_marked(records@, marks@, true),
{
    let mut rows: Vec<Record<P>> = Vec::new();
    let mut skipped: Vec<Record<P>> = Vec::new();
    let count: usize = records.len();
    let mut i: usize = 0;
    proof {
        assert(records@.take(0) =~= Seq::<Record<P>>::empty());
    }
    for record in it: records
        invariant
            it.seq() == records@,
            records@.len() == count,
            i == it.index(),
            i <= records@.len(),
            rows@ == pick_marked(records@.take(i as int), marks@, false),
            skipped@ == pick_marked(records@.take(i as int), marks@, true),
    {
        assert(i < records@.len());
        proof {
            let k = i as int;
            assert(records@.take(k + 1).drop_last() =~= records@.take(k));
            assert(records@.take(k + 1).last() == records@[k]);
        }
        let bad: bool = i < marks.len() && marks[i];
        if bad {
            skipped.push(record);
        } else {
            rows.push(record);
        }
        i = i + 1;
    }
    proof {
        assert(records@.take(records@.len() as int) =~= records@);
    }
    CommitPlan { rows, skipped }
}

/// Brings a batch into the order in which it is committed, leaving out the
/// records that the caller has marked as malformed: the unmarked records
/// sorted under `order`, the marked ones set aside in the order of arrival.
pub fn plan_commit_marked<P>(records: Vec<Record<P>>, marks: &Vec<bool>, order: OrderKey) -> (r:
    CommitPlan<P>)
    ensures
        sorted(r.rows@, order),
        adjacent_sorted(r.rows@, order),
        r.rows@.to_multiset() == pick_marked(records@, marks@, false).to_multiset(),
        r.rows@.len() == pick_marked(records@, marks@, false).len(),
        r.skipped@ == pick_marked(records@, marks@, true),
{
    let plan = split_marked(records, marks);
    let rows = sort_records(plan.rows, order);
    proof {
        lemma_sorted_adjacent(rows@, order);
    }
    CommitPlan { rows, skipped: plan.skipped }
}

/// The test that keeps the records stamped later than `after`; all of them
/// where there is no such bound.
pub open spec fn later_than<P>(after: Option<i64>) -> spec_fn(Record<P>) -> bool {
    |r: Record<P>| match after {
        Some(ts) => r.ts > ts,
        None => true,
    }
}

/// Of the records fetched for a partition that already holds rows up to
/// the timestamp `after`, those that are later, in order.
pub fn newer_than<P>(records: Vec<Record<P>>, after: Option<i64>) -> (r: Vec<Record<P>>)
    ensures
        r@ == records@.filter(later_than(after)),
{
    let mut out: Vec<Record<P>> = Vec::new();
    let ghost keep = later_than::<P>(after);
    proof {
        reveal(Seq::filter);
        assert(records@.take(0) =~= Seq::<Record<P>>::empty());
    }
    for record in it: records
        invariant
            it.seq() == records@,
            keep == later_than::<P>(after),
            out@ == records@.take(it.index() as int).filter(keep),
    {
        proof {
            let i = it.index() as int;
            assert(records@.take(i + 1) =~= records@.take(i).push(records@[i]));
            records@.take(i).lemma_filter_push(records@[i], keep);
        }
        let later: bool = match after {
            Some(ts) => record.ts > ts,
            None => true,
        };
        if later {
            out.push(record);
        }
    }
    proof {
        assert(records@.take(records@.len() as int) =~= records@);
    }
    out
}

/// The row count that the storage engine must report after a flush: the
/// rows found before the run and the rows written in it.
pub open spec fn expected_rows(prior: u64, written: u64) -> int {
    prior as int + written as int
}

/// Holds the row count that the storage engine reports after the flush
/// against the rows that the run accounts for.
pub fn verify_commit(prior: u64, written: u64, reported: u64) -> (r: Result<u64, Fatal>)
    ensures
        r == if reported as int == expected_rows(prior, written) {
            Ok::<u64, Fatal>(reported)
        } else {
            Err::<u64, Fatal>(Fatal::WriteVerificationMismatch { prior, written, reported })
        },
{
    let expected: u128 = prior as u128 + written as u128;
    if reported as u128 == expected {
        Ok(reported)
    } else {
        Err(Fatal::WriteVerificationMismatch { prior, written, reported })
    }
}

} // verus!

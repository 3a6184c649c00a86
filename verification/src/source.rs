//! Bringing what the data source answers into the shape that the pipeline
//! works on.

use crate::calendar::{Date, NANOS_PER_DAY};
use crate::dedup::PageStep;
use crate::record::Record;
use crate::retry::FetchError;
use vstd::prelude::*;

verus! {

/// The status with which the source answers a request that it served.
pub const STATUS_OK: u16 = 200;

/// How far the source's clock is ahead of the exchange's, in milliseconds.
pub const EASTERN_OFFSET_MILLIS: i64 = 18_000_000;

/// Nanoseconds in one millisecond.
pub const NANOS_PER_MILLI: i64 = 1_000_000;

/// Takes the status of an answer: any but success fails the attempt.
pub fn check_status(status: u16) -> (r: Result<(), FetchError>)
    ensures
        r == if status == STATUS_OK {
            Ok::<(), FetchError>(())
        } else {
            Err::<(), FetchError>(FetchError::BadStatus { status })
        },
{
    if status == STATUS_OK {
        Ok(())
    } else {
        Err(FetchError::BadStatus { status })
    }
}

/// The exchange's time in nanoseconds for a timestamp that the source gave
/// in milliseconds of its own clock.
pub open spec fn eastern_nanos(millis: i64) -> int {
    (millis - EASTERN_OFFSET_MILLIS) * NANOS_PER_MILLI
}

/// The exchange's time for a timestamp of the source, in a width that
/// holds it whatever the timestamp.
fn eastern_wide(millis: i64) -> (r: i128)
    ensures
        r == eastern_nanos(millis),
{
    let shifted: i128 = millis as i128 - EASTERN_OFFSET_MILLIS as i128;
    assert(-0x1_0000_0000_0000_0000_0000_0000 <= shifted * 1_000_000
        <= 0x1_0000_0000_0000_0000_0000_0000)
        by (nonlinear_arith)
        requires
            -0x1_0000_0000_0000_0000 <= shifted <= 0x1_0000_0000_0000_0000,
    ;
    shifted * NANOS_PER_MILLI as i128
}

/// The nanoseconds from the epoch to the midnight that begins the day with
/// the given number, in a width that holds them whatever the day.
fn midnight_wide(epoch_day: i64) -> (r: i128)
    requires
        -0x1_0000_0000 <= epoch_day <= 0x1_0000_0000,
    ensures
        r == epoch_day as int * NANOS_PER_DAY as int,
{
    assert(-0x1_0000_0000_0000_0000_0000 <= epoch_day * 86_400_000_000_000
        <= 0x1_0000_0000_0000_0000_0000) by (nonlinear_arith)
        requires
            -0x1_0000_0000 <= epoch_day <= 0x1_0000_0000,
    ;
    epoch_day as i128 * NANOS_PER_DAY as i128
}

/// Turns a timestamp of the source, in milliseconds of its own clock, into
/// nanoseconds of the exchange's; `None` where that does not fit 64 bits.
pub fn to_eastern_nanos(millis: i64) -> (r: Option<i64>)
    ensures
        r == if i64::MIN <= eastern_nanos(millis) <= i64::MAX {
            Some(eastern_nanos(millis) as i64)
        } else {
            None::<i64>
        },
{
    let wide: i128 = eastern_wide(millis);
    if wide < i64::MIN as i128 || wide > i64::MAX as i128 {
        None
    } else {
        Some(wide as i64)
    }
}

/// A record with another timestamp.
pub open spec fn stamped_with<P>(record: Record<P>, ts: i64) -> Record<P> {
    Record { ts, ..record }
}

/// The records, each with the timestamp `ts`.
pub open spec fn all_stamped<P>(rows: Seq<Record<P>>, ts: i64) -> Seq<Record<P>> {
    Seq::new(rows.len(), |i: int| stamped_with(rows[i], ts))
}

/// Gives every record the timestamp `ts`: the records of one day carry the
/// day's midnight.
pub fn restamp<P>(rows: Vec<Record<P>>, ts: i64) -> (r: Vec<Record<P>>)
    ensures
        r@ == all_stamped(rows@, ts),
{
    let mut out: Vec<Record<P>> = Vec::new();
    for record in it: rows
        invariant
            it.seq() == rows@,
            out@.len() == it.index(),
            forall|i: int| 0 <= i < out@.len() ==> out@[i] == stamped_with(rows@[i], ts),
    {
        out.push(
            Record {
                ts,
                symbol: record.symbol,
                id: record.id,
                seq_id: record.seq_id,
                payload: record.payload,
            },
        );
    }
    assert(out@ =~= all_stamped(rows@, ts));
    out
}

/// Shapes the answer to a request for the bars of all symbols on one day:
/// an answer without bars means that the source has no data; the bars of
/// an answer all get `day_ts`, the day's midnight.
pub fn shape_daily_bars<P>(rows: Vec<Record<P>>, day_ts: i64) -> (r: Result<
    Vec<Record<P>>,
    FetchError,
>)
    ensures
        rows@.len() == 0 ==> r == Err::<Vec<Record<P>>, FetchError>(FetchError::NoData),
        rows@.len() > 0 ==> (r matches Ok(out) && out@ == all_stamped(rows@, day_ts)),
{
    if rows.len() == 0 {
        Err(FetchError::NoData)
    } else {
        Ok(restamp(rows, day_ts))
    }
}

/// The earliest timestamp of a run of records.
pub open spec fn earliest<P>(rows: Seq<Record<P>>) -> i64
    decreases rows.len(),
{
    if rows.len() <= 1 {
        rows[0].ts
    } else if rows.last().ts < earliest(rows.drop_last()) {
        rows.last().ts
    } else {
        earliest(rows.drop_last())
    }
}

/// The latest timestamp of a run of records.
pub open spec fn latest<P>(rows: Seq<Record<P>>) -> i64
    decreases rows.len(),
{
    if rows.len() <= 1 {
        rows[0].ts
    } else if rows.last().ts > latest(rows.drop_last()) {
        rows.last().ts
    } else {
        latest(rows.drop_last())
    }
}

/// The records, each with its source timestamp turned into the exchange's
/// nanoseconds.
pub open spec fn all_eastern<P>(rows: Seq<Record<P>>) -> Seq<Record<P>> {
    Seq::new(rows.len(), |i: int| stamped_with(rows[i], eastern_nanos(rows[i].ts) as i64))
}

/// What becomes of the answer to a request for one symbol's minute bars
/// between `from_ts` and `to_ts`: no bars mean that the source has no data;
/// a bar before `from_ts` or after `to_ts` fails the attempt, the earliest
/// being named before the latest, each by the timestamp that the source
/// gave; else the bars come back in the exchange's nanoseconds.
pub open spec fn minute_bars_verdict<P>(rows: Seq<Record<P>>, from_ts: i64, to_ts: i64) -> Result<
    Seq<Record<P>>,
    FetchError,
> {
    if rows.len() == 0 {
        Err(FetchError::NoData)
    } else if eastern_nanos(earliest(rows)) < from_ts {
        Err(FetchError::OutOfRange { ts: earliest(rows) })
    } else if eastern_nanos(latest(rows)) > to_ts {
        Err(FetchError::OutOfRange { ts: latest(rows) })
    } else {
        Ok(all_eastern(rows))
    }
}

/// The earliest and the latest timestamp bound every timestamp of the run.
pub proof fn lemma_extremes<P>(rows: Seq<Record<P>>)
    requires
        rows.len() > 0,
    ensures
        forall|i: int| 0 <= i < rows.len() ==> earliest(rows) <= (#[trigger] rows[i]).ts <= latest(
            rows,
        ),
        exists|i: int| 0 <= i < rows.len() && (#[trigger] rows[i]).ts == earliest(rows),
        exists|i: int| 0 <= i < rows.len() && (#[trigger] rows[i]).ts == latest(rows),
    decreases rows.len(),
{
    if rows.len() > 1 {
        let init = rows.drop_last();
        lemma_extremes(init);
        assert forall|i: int| 0 <= i < rows.len() implies earliest(rows) <= (
        #[trigger] rows[i]).ts <= latest(rows) by {
            if i < init.len() {
                assert(init[i] == rows[i]);
            }
        }
        let a = choose|i: int| 0 <= i < init.len() && (#[trigger] init[i]).ts == earliest(init);
        let b = choose|i: int| 0 <= i < init.len() && (#[trigger] init[i]).ts == latest(init);
        assert(rows[a] == init[a]);
        assert(rows[b] == init[b]);
        let n = rows.len() - 1;
        if earliest(rows) == rows.last().ts {
            assert(rows[n].ts == earliest(rows));
        } else {
            assert(rows[a].ts == earliest(rows));
        }
        if latest(rows) == rows.last().ts {
            assert(rows[n].ts == latest(rows));
        } else {
            assert(rows[b].ts == latest(rows));
        }
    } else {
        assert(rows[0].ts == earliest(rows));
        assert(rows[0].ts == latest(rows));
    }
}

/// Shapes the answer to a request for one symbol's minute bars between
/// `from_ts` and `to_ts`, both in the exchange's nanoseconds.
pub fn shape_minute_bars<P>(rows: Vec<Record<P>>, from_ts: i64, to_ts: i64) -> (r: Result<
    Vec<Record<P>>,
    FetchError,
>)
    ensures
        match minute_bars_verdict(rows@, from_ts, to_ts) {
            Ok(shaped) => r matches Ok(out) && out@ == shaped,
            Err(error) => r == Err::<Vec<Record<P>>, FetchError>(error),
        },
{
    let count: usize = rows.len();
    if count == 0 {
        return Err(FetchError::NoData);
    }
    let mut low: i64 = rows[0].ts;
    let mut high: i64 = rows[0].ts;
    let mut i: usize = 1;
    proof {
        assert(rows@.take(1).len() == 1);
    }
    while i < count
        invariant
            count == rows@.len(),
            1 <= i <= count,
            low == earliest(rows@.take(i as int)),
            high == latest(rows@.take(i as int)),
        decreases count - i,
    {
        proof {
            let k = i as int;
            assert(rows@.take(k + 1).drop_last() =~= rows@.take(k));
            assert(rows@.take(k + 1).last() == rows@[k]);
        }
        let ts: i64 = rows[i].ts;
        if ts < low {
            low = ts;
        }
        if ts > high {
            high = ts;
        }
        i = i + 1;
    }
    proof {
        assert(rows@.take(count as int) =~= rows@);
        lemma_extremes(rows@);
    }
    let first: i128 = eastern_wide(low);
    let last: i128 = eastern_wide(high);
    if first < from_ts as i128 {
        return Err(FetchError::OutOfRange { ts: low });
    }
    if last > to_ts as i128 {
        return Err(FetchError::OutOfRange { ts: high });
    }
    let mut out: Vec<Record<P>> = Vec::new();
    for record in it: rows
        invariant
            it.seq() == rows@,
            out@.len() == it.index(),
            forall|j: int|
                0 <= j < rows@.len() ==> from_ts <= eastern_nanos((#[trigger] rows@[j]).ts)
                    <= to_ts,
            forall|j: int|
                0 <= j < out@.len() ==> out@[j] == stamped_with(
                    rows@[j],
                    eastern_nanos(rows@[j].ts) as i64,
                ),
    {
        let ghost j = it.index() as int;
        assert(from_ts <= eastern_nanos(rows@[j].ts) <= to_ts);
        let wide: i128 = eastern_wide(record.ts);
        out.push(
            Record {
                ts: wide as i64,
                symbol: record.symbol,
                id: record.id,
                seq_id: record.seq_id,
                payload: record.payload,
            },
        );
    }
    assert(out@ =~= all_eastern(rows@));
    Ok(out)
}

/// How many minute bars one page is asked to hold.
pub const BAR_PAGE_LIMIT: usize = 50_000;

/// The identifier of a bar of one symbol: its timestamp, counted from the
/// earliest that can be told.
pub open spec fn time_id(ts: i64) -> u64 {
    (ts - i64::MIN) as u64
}

/// Bars at different times carry different identifiers.
pub proof fn lemma_time_id_injective(a: i64, b: i64)
    ensures
        time_id(a) == time_id(b) <==> a == b,
{
}

/// The records, each identified by its timestamp.
pub open spec fn all_identified<P>(rows: Seq<Record<P>>) -> Seq<Record<P>> {
    Seq::new(rows.len(), |i: int| Record { id: time_id(rows[i].ts), ..rows[i] })
}

/// Gives every bar of one symbol the identifier of its timestamp, so that
/// the pages of a request for more bars than one page holds can be merged:
/// a symbol has one bar at a time.
pub fn identify_by_time<P>(rows: Vec<Record<P>>) -> (r: Vec<Record<P>>)
    ensures
        r@ == all_identified(rows@),
{
    let mut out: Vec<Record<P>> = Vec::new();
    for record in it: rows
        invariant
            it.seq() == rows@,
            out@.len() == it.index(),
            forall|i: int|
                0 <= i < out@.len() ==> out@[i] == (Record {
                    id: time_id(rows@[i].ts),
                    ..rows@[i]
                }),
    {
        let id: u64 = (record.ts as i128 - i64::MIN as i128) as u64;
        out.push(
            Record {
                ts: record.ts,
                symbol: record.symbol,
                id,
                seq_id: record.seq_id,
                payload: record.payload,
            },
        );
    }
    assert(out@ =~= all_identified(rows@));
    out
}

/// The day from which the next page of minute bars is asked, bars being
/// asked for by the day: the day of the cursor.  That page starts at the
/// day's midnight, at the cursor or before it, and the merge drops what it
/// holds from before the cursor.
pub fn next_bar_day(step: PageStep) -> (r: Option<Date>)
    ensures
        r == match step {
            PageStep::Next { cursor } => Some(Date::spec_of_nanos(cursor)),
            PageStep::Done => None,
        },
        step matches PageStep::Next { cursor } ==> r matches Some(day)
            && day.spec_midnight_nanos() <= cursor,
{
    match step {
        PageStep::Next { cursor } => Some(Date::of_nanos(cursor)),
        PageStep::Done => None,
    }
}

/// The bounds, in nanoseconds, between which the minute bars of a request
/// for the days `from` through `to` must lie: the midnight that begins
/// `from` and the midnight that ends `to`.
pub open spec fn spec_bar_window(from: Date, to: Date) -> Option<(i64, i64)> {
    let low = from.epoch_day as int * NANOS_PER_DAY as int;
    let high = (to.epoch_day as int + 1) * NANOS_PER_DAY as int;
    if i64::MIN <= low <= i64::MAX && i64::MIN <= high <= i64::MAX {
        Some((low as i64, high as i64))
    } else {
        None
    }
}

/// Computes the bounds between which the minute bars of a request for the
/// days `from` through `to` must lie; `None` where a bound does not fit 64
/// bits.
pub fn bar_window(from: Date, to: Date) -> (r: Option<(i64, i64)>)
    ensures
        r == spec_bar_window(from, to),
{
    let low: i128 = midnight_wide(from.epoch_day as i64);
    let high: i128 = midnight_wide(to.epoch_day as i64 + 1);
    if low < i64::MIN as i128 || low > i64::MAX as i128 || high < i64::MIN as i128 || high
        > i64::MAX as i128 {
        None
    } else {
        Some((low as i64, high as i64))
    }
}

} // verus!

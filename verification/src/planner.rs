//! Which partitions a run fetches, and from which day on.

use crate::calendar::{
    civil_to_epoch_day, epoch_day_to_civil, open_days, Date, MarketDays, SessionCalendar,
    YearMonth, MAX_NANOS_DAY, NANOS_PER_DAY,
};
use vstd::prelude::*;

verus! {

/// The key of a partition of the store: a year, a month or a day.
#[derive(Clone, Copy, Debug, PartialEq, Eq, Structural)]
pub enum PartitionKey {
    Year(i32),
    Month(YearMonth),
    Day(Date),
}

/// What the store knows of one committed partition: its key, the timestamp
/// of its last row and the number of its rows.
#[derive(Clone, Copy, Debug, PartialEq, Eq, Structural)]
pub struct PartitionMeta {
    pub key: PartitionKey,
    pub to_ts: i64,
    pub row_count: u64,
}

/// The committed partitions of one table, as read from the store.
#[derive(Clone, Debug, PartialEq, Eq)]
pub struct Catalog {
    pub partitions: Vec<PartitionMeta>,
}

/// The first entry that carries `key`.
pub open spec fn find_in(entries: Seq<PartitionMeta>, key: PartitionKey) -> Option<PartitionMeta>
    decreases entries.len(),
{
    if entries.len() == 0 {
        None
    } else if entries[0].key == key {
        Some(entries[0])
    } else {
        find_in(entries.drop_first(), key)
    }
}

impl Catalog {
    /// The store holds a committed partition under `key`.
    pub open spec fn committed(self, key: PartitionKey) -> bool {
        find_in(self.partitions@, key) is Some
    }

    /// What the store knows of the partition under `key`.
    pub fn find(&self, key: &PartitionKey) -> (r: Option<PartitionMeta>)
        ensures
            r == find_in(self.partitions@, *key),
    {
        let mut i: usize = 0;
        proof {
            assert(self.partitions@.skip(0) =~= self.partitions@);
        }
        while i < self.partitions.len()
            invariant
                i <= self.partitions@.len(),
                find_in(self.partitions@, *key) == find_in(self.partitions@.skip(i as int), *key),
            decreases self.partitions@.len() - i,
        {
            let entry = self.partitions[i];
            proof {
                let rest = self.partitions@.skip(i as int);
                assert(rest[0] == self.partitions@[i as int]);
                assert(rest.drop_first() =~= self.partitions@.skip(i + 1));
            }
            if entry.key == *key {
                return Some(entry);
            }
            i = i + 1;
        }
        None
    }

    /// Whether the store holds a committed partition under `key`.
    pub fn is_committed(&self, key: &PartitionKey) -> (r: bool)
        ensures
            r == self.committed(*key),
    {
        self.find(key).is_some()
    }

    /// The rows of the partition under `key`: none where the store holds no
    /// such partition.
    pub fn row_count(&self, key: &PartitionKey) -> (r: u64)
        ensures
            r == match find_in(self.partitions@, *key) {
                Some(meta) => meta.row_count,
                None => 0,
            },
    {
        match self.find(key) {
            Some(meta) => meta.row_count,
            None => 0,
        }
    }

    /// Takes note of a commit: from now on the store holds `meta` under its
    /// key, and under every other key what it held before.
    pub fn record(&mut self, meta: PartitionMeta)
        ensures
            forall|key: PartitionKey|
                find_in(final(self).partitions@, key) == if key == meta.key {
                    Some(meta)
                } else {
                    find_in(old(self).partitions@, key)
                },
    {
        let mut i: usize = 0;
        while i < self.partitions.len()
            invariant
                self.partitions == old(self).partitions,
                i <= self.partitions@.len(),
                forall|j: int| 0 <= j < i ==> self.partitions@[j].key != meta.key,
            decreases self.partitions@.len() - i,
        {
            if self.partitions[i].key == meta.key {
                proof {
                    let entries = self.partitions@;
                    assert forall|key: PartitionKey|
                        find_in(entries.update(i as int, meta), key) == if key == meta.key {
                            Some(meta)
                        } else {
                            find_in(entries, key)
                        } by {
                        lemma_find_update(entries, i as int, meta, key);
                    }
                }
                self.partitions.set(i, meta);
                return ;
            }
            i = i + 1;
        }
        proof {
            let entries = self.partitions@;
            assert forall|key: PartitionKey|
                find_in(entries.push(meta), key) == if key == meta.key {
                    Some(meta)
                } else {
                    find_in(entries, key)
                } by {
                lemma_find_push(entries, meta, key);
            }
        }
        self.partitions.push(meta);
    }
}

/// Replacing the first entry of a key changes what is found under that key
/// and nothing else.
proof fn lemma_find_update(
    entries: Seq<PartitionMeta>,
    at: int,
    meta: PartitionMeta,
    key: PartitionKey,
)
    requires
        0 <= at < entries.len(),
        entries[at].key == meta.key,
        forall|j: int| 0 <= j < at ==> entries[j].key != meta.key,
    ensures
        find_in(entries.update(at, meta), key) == if key == meta.key {
            Some(meta)
        } else {
            find_in(entries, key)
        },
    decreases at,
{
    let changed = entries.update(at, meta);
    if at == 0 {
        assert(changed.drop_first() =~= entries.drop_first());
        assert(changed[0] == meta);
    } else {
        assert(entries[0].key != meta.key);
        assert(entries.drop_first()[at - 1] == entries[at]);
        assert forall|j: int| 0 <= j < at - 1 implies entries.drop_first()[j].key != meta.key by {
            assert(entries.drop_first()[j] == entries[j + 1]);
        }
        lemma_find_update(entries.drop_first(), at - 1, meta, key);
        assert(changed.drop_first() =~= entries.drop_first().update(at - 1, meta));
        assert(changed[0] == entries[0]);
    }
}

/// Adding an entry under a key that no entry carries changes what is found
/// under that key and nothing else.
proof fn lemma_find_push(entries: Seq<PartitionMeta>, meta: PartitionMeta, key: PartitionKey)
    requires
        forall|j: int| 0 <= j < entries.len() ==> entries[j].key != meta.key,
    ensures
        find_in(entries.push(meta), key) == if key == meta.key {
            Some(meta)
        } else {
            find_in(entries, key)
        },
    decreases entries.len(),
{
    let grown = entries.push(meta);
    if entries.len() == 0 {
        assert(grown.drop_first() =~= entries);
        assert(grown[0] == meta);
    } else {
        assert(entries[0].key != meta.key);
        assert forall|j: int| 0 <= j < entries.drop_first().len() implies entries.drop_first()[j].key
            != meta.key by {
            assert(entries.drop_first()[j] == entries[j + 1]);
        }
        lemma_find_push(entries.drop_first(), meta, key);
        assert(grown.drop_first() =~= entries.drop_first().push(meta));
        assert(grown[0] == entries[0]);
    }
}

/// The test that picks the partitions that the store does not hold.
pub open spec fn uncommitted(catalog: Catalog) -> spec_fn(PartitionKey) -> bool {
    |key: PartitionKey| !catalog.committed(key)
}

/// Of the partitions of a range, newest first, those that a run fetches:
/// the newest, which may still be open, and every other that the store does
/// not hold.
pub open spec fn due(catalog: Catalog, candidates: Seq<PartitionKey>) -> Seq<PartitionKey> {
    if candidates.len() == 0 {
        candidates
    } else {
        seq![candidates[0]] + candidates.drop_first().filter(uncommitted(catalog))
    }
}

/// Picks, from the partitions of a range, newest first, those that the run
/// fetches.
pub fn select_due(candidates: &Vec<PartitionKey>, catalog: &Catalog) -> (r: Vec<PartitionKey>)
    ensures
        r@ == due(*catalog, candidates@),
{
    let mut out: Vec<PartitionKey> = Vec::new();
    if candidates.len() == 0 {
        assert(out@ =~= candidates@);
        return out;
    }
    out.push(candidates[0]);
    let ghost head = seq![candidates@[0]];
    let ghost tail = candidates@.drop_first();
    let ghost pick = uncommitted(*catalog);
    proof {
        reveal(Seq::filter);
        assert(tail.take(0) =~= Seq::<PartitionKey>::empty());
        assert(out@ =~= head + tail.take(0).filter(pick));
    }
    let mut i: usize = 1;
    while i < candidates.len()
        invariant
            1 <= i <= candidates@.len(),
            head == seq![candidates@[0]],
            tail == candidates@.drop_first(),
            pick == uncommitted(*catalog),
            out@ == head + tail.take(i - 1).filter(pick),
        decreases candidates@.len() - i,
    {
        let key = candidates[i];
        proof {
            let k = i - 1;
            assert(tail[k] == key);
            assert(tail.take(k + 1) =~= tail.take(k).push(key));
            tail.take(k).lemma_filter_push(key, pick);
            assert(head + tail.take(k).filter(pick).push(key) =~= (head + tail.take(k).filter(
                pick,
            )).push(key));
        }
        if !catalog.is_committed(&key) {
            out.push(key);
        }
        i = i + 1;
    }
    proof {
        assert(tail.take(tail.len() as int) =~= tail);
    }
    out
}

/// A run over a range of which the store holds every partition fetches the
/// newest partition of the range and nothing else.
pub proof fn lemma_resume_refetches_open_only(catalog: Catalog, candidates: Seq<PartitionKey>)
    requires
        forall|i: int| 0 <= i < candidates.len() ==> catalog.committed(#[trigger] candidates[i]),
    ensures
        candidates.len() == 0 ==> due(catalog, candidates).len() == 0,
        candidates.len() > 0 ==> due(catalog, candidates) == seq![candidates[0]],
{
    if candidates.len() > 0 {
        let tail = candidates.drop_first();
        let pick = uncommitted(catalog);
        assert forall|i: int| 0 <= i < tail.len() implies !pick(#[trigger] tail[i]) by {
            assert(tail[i] == candidates[i + 1]);
        }
        lemma_filter_none(tail, pick);
        assert(seq![candidates[0]] + tail.filter(pick) =~= seq![candidates[0]]);
    }
}

/// A test that no member passes leaves nothing.
proof fn lemma_filter_none<A>(s: Seq<A>, p: spec_fn(A) -> bool)
    requires
        forall|i: int| 0 <= i < s.len() ==> !p(#[trigger] s[i]),
    ensures
        s.filter(p).len() == 0,
    decreases s.len(),
{
    reveal(Seq::filter);
    if s.len() > 0 {
        let init = s.drop_last();
        assert forall|i: int| 0 <= i < init.len() implies !p(#[trigger] init[i]) by {
            assert(init[i] == s[i]);
        }
        lemma_filter_none(init, p);
        assert(!p(s[s.len() - 1]));
    }
}

/// A run never fetches a partition that the store holds, but the newest of
/// the range, and fetches every partition of the range that the store does
/// not hold.
pub proof fn lemma_due_members(catalog: Catalog, candidates: Seq<PartitionKey>)
    ensures
        forall|i: int|
            0 <= i < due(catalog, candidates).len() ==> candidates.contains(
                #[trigger] due(catalog, candidates)[i],
            ) && (due(catalog, candidates)[i] == candidates[0] || !catalog.committed(
                due(catalog, candidates)[i],
            )),
        forall|i: int|
            0 <= i < candidates.len() && !catalog.committed(#[trigger] candidates[i]) ==> due(
                catalog,
                candidates,
            ).contains(candidates[i]),
{
    if candidates.len() > 0 {
        let head = seq![candidates[0]];
        let tail = candidates.drop_first();
        let pick = uncommitted(catalog);
        let kept = tail.filter(pick);
        let all = due(catalog, candidates);
        assert forall|i: int| 0 <= i < all.len() implies candidates.contains(#[trigger] all[i])
            && (all[i] == candidates[0] || !catalog.committed(all[i])) by {
            if i == 0 {
                assert(all[0] == candidates[0]);
            } else {
                assert(all[i] == kept[i - 1]);
                tail.lemma_filter_pred(pick, i - 1);
                assert(kept.contains(kept[i - 1]));
                tail.lemma_filter_contains_rev(pick, kept[i - 1]);
                let j = choose|j: int| 0 <= j < tail.len() && tail[j] == kept[i - 1];
                assert(candidates[j + 1] == tail[j]);
            }
        }
        assert forall|i: int|
            0 <= i < candidates.len() && !catalog.committed(
                #[trigger] candidates[i],
            ) implies all.contains(candidates[i]) by {
            if i == 0 {
                assert(all[0] == candidates[0]);
            } else {
                assert(tail[i - 1] == candidates[i]);
                tail.lemma_filter_contains(pick, i - 1);
                let j = choose|j: int| 0 <= j < kept.len() && kept[j] == tail[i - 1];
                assert(all[j + 1] == kept[j]);
            }
        }
    }
}

/// The yearly partitions from `last` back to `first`.
pub open spec fn years_down(first: int, last: int) -> Seq<PartitionKey> {
    Seq::new(
        if last >= first {
            (last - first + 1) as nat
        } else {
            0
        },
        |i: int| PartitionKey::Year((last - i) as i32),
    )
}

/// The month at a position on the line of all months.
pub open spec fn month_at(index: int) -> YearMonth {
    YearMonth { year: (index / 12) as i32, month: (index % 12 + 1) as u32 }
}

/// The monthly partitions from `upto` back to the month after `after`.
pub open spec fn months_down(after: YearMonth, upto: YearMonth) -> Seq<PartitionKey> {
    Seq::new(
        if upto.index() > after.index() {
            (upto.index() - after.index()) as nat
        } else {
            0
        },
        |i: int| PartitionKey::Month(month_at(upto.index() - i)),
    )
}

/// The daily partitions of the trading days from `from` up to, but not
/// including, `to`, the latest first.
pub open spec fn days_down(calendar: SessionCalendar, from: int, to: int) -> Seq<PartitionKey> {
    let days = open_days(calendar, from, to);
    Seq::new(days.len(), |i: int| PartitionKey::Day(days[days.len() - 1 - i]))
}

/// Lists the yearly partitions from `last` back to `first`.
pub fn years_descending(first: i32, last: i32) -> (r: Vec<PartitionKey>)
    ensures
        r@ == years_down(first as int, last as int),
{
    let mut out: Vec<PartitionKey> = Vec::new();
    if last < first {
        assert(out@ =~= years_down(first as int, last as int));
        return out;
    }
    let mut year: i32 = last;
    loop
        invariant_except_break
            out@ == years_down(year + 1, last as int),
        invariant
            first <= year <= last,
        ensures
            out@ == years_down(first as int, last as int),
        decreases year - first,
    {
        proof {
            assert(years_down(year as int, last as int) =~= years_down(year + 1, last as int).push(
                PartitionKey::Year(year),
            ));
        }
        out.push(PartitionKey::Year(year));
        if year == first {
            break ;
        }
        year = year - 1;
    }
    out
}

/// Lists the monthly partitions from `upto` back to the month after
/// `after`.
pub fn months_descending(after: &YearMonth, upto: &YearMonth) -> (r: Vec<PartitionKey>)
    requires
        after.wf(),
        upto.wf(),
    ensures
        r@ == months_down(*after, *upto),
{
    let mut out: Vec<PartitionKey> = Vec::new();
    let mut month: YearMonth = *upto;
    proof {
        assert(out@ =~= months_down(*upto, *upto));
    }
    while month.year > after.year || (month.year == after.year && month.month > after.month)
        invariant
            after.wf(),
            upto.wf(),
            month.wf(),
            month.index() <= upto.index(),
            upto.index() > after.index() ==> month.index() >= after.index(),
            upto.index() <= after.index() ==> month == *upto,
            out@ == months_down(month, *upto),
        decreases month.index() - after.index(),
    {
        proof {
            assert(month_at(month.index()) == month);
            assert(months_down(month.spec_prev(), *upto) =~= months_down(month, *upto).push(
                PartitionKey::Month(month),
            ));
        }
        out.push(PartitionKey::Month(month));
        month = month.prev();
    }
    proof {
        if upto.index() > after.index() {
            assert(month.index() == after.index());
            assert(months_down(month, *upto) =~= months_down(*after, *upto));
        } else {
            assert(months_down(*upto, *upto) =~= months_down(*after, *upto));
        }
    }
    out
}

/// Lists the daily partitions of the trading days of a half-open range of
/// dates, the latest first.
pub fn days_descending(from: Date, to: Date, calendar: &SessionCalendar) -> (r: Vec<PartitionKey>)
    ensures
        r@ == days_down(*calendar, from.epoch_day as int, to.epoch_day as int),
{
    let days = (MarketDays { from, to }).collect(calendar);
    let mut out: Vec<PartitionKey> = Vec::new();
    let mut left: usize = days.len();
    while left > 0
        invariant
            left <= days@.len(),
            out@.len() == days@.len() - left,
            forall|i: int|
                0 <= i < out@.len() ==> out@[i] == PartitionKey::Day(days@[days@.len() - 1 - i]),
        decreases left,
    {
        left = left - 1;
        out.push(PartitionKey::Day(days[left]));
    }
    assert(out@ =~= days_down(*calendar, from.epoch_day as int, to.epoch_day as int));
    out
}

/// The year of the day before `today`: the last year that a run looks at.
pub open spec fn last_year(today: Date) -> Option<int> {
    if today.epoch_day > i32::MIN {
        match epoch_day_to_civil(today.epoch_day - 1) {
            Some(c) => Some(c.0),
            None => None,
        }
    } else {
        None
    }
}

/// The yearly partitions that a run on `today` looks at: the years from
/// that of yesterday back to `first_year`.  `None` where the calendar does
/// not reach yesterday.
pub fn year_candidates(first_year: i32, today: Date) -> (r: Option<Vec<PartitionKey>>)
    ensures
        match last_year(today) {
            Some(last) => r matches Some(keys) && keys@ == years_down(first_year as int, last),
            None => r is None,
        },
        -MAX_NANOS_DAY <= today.epoch_day <= MAX_NANOS_DAY ==> r is Some,
{
    if today.epoch_day == i32::MIN {
        return None;
    }
    let yesterday = Date { epoch_day: today.epoch_day - 1 };
    match yesterday.civil() {
        Some(c) => Some(years_descending(first_year, c.year)),
        None => None,
    }
}

/// The monthly partitions that a run on `today` looks at: the months from
/// that of today back to the one after `after`.  `None` where the calendar
/// does not reach today.
pub fn month_candidates(after: &YearMonth, today: Date) -> (r: Option<Vec<PartitionKey>>)
    requires
        after.wf(),
    ensures
        match epoch_day_to_civil(today.epoch_day as int) {
            Some(c) => r matches Some(keys) && keys@ == months_down(
                *after,
                YearMonth { year: c.0 as i32, month: c.1 as u32 },
            ),
            None => r is None,
        },
        -MAX_NANOS_DAY <= today.epoch_day <= MAX_NANOS_DAY ==> r is Some,
{
    match YearMonth::of(&today) {
        Some(current) => Some(months_descending(after, &current)),
        None => None,
    }
}

/// The yearly partitions that a run on `today` fetches: of the years from
/// that of yesterday back to `first_year`, the latest and every one that the
/// store does not hold.  `None` where the calendar does not reach yesterday.
pub fn plan_years(first_year: i32, today: Date, catalog: &Catalog) -> (r: Option<
    Vec<PartitionKey>,
>)
    ensures
        match last_year(today) {
            Some(last) => r matches Some(plan) && plan@ == due(
                *catalog,
                years_down(first_year as int, last),
            ),
            None => r is None,
        },
        -MAX_NANOS_DAY <= today.epoch_day <= MAX_NANOS_DAY ==> r is Some,
{
    match year_candidates(first_year, today) {
        Some(years) => Some(select_due(&years, catalog)),
        None => None,
    }
}

/// The monthly partitions that a run on `today` fetches: of the months from
/// that of today back to the one after `after`, the latest and every one
/// that the store does not hold.  `None` where the calendar does not reach
/// today.
pub fn plan_months(after: &YearMonth, today: Date, catalog: &Catalog) -> (r: Option<
    Vec<PartitionKey>,
>)
    requires
        after.wf(),
    ensures
        match epoch_day_to_civil(today.epoch_day as int) {
            Some(c) => r matches Some(plan) && plan@ == due(
                *catalog,
                months_down(*after, YearMonth { year: c.0 as i32, month: c.1 as u32 }),
            ),
            None => r is None,
        },
        -MAX_NANOS_DAY <= today.epoch_day <= MAX_NANOS_DAY ==> r is Some,
{
    match month_candidates(after, today) {
        Some(months) => Some(select_due(&months, catalog)),
        None => None,
    }
}

/// The daily partitions that a run on `today` fetches: of the trading days
/// from `from` up to yesterday, the latest and every one that the store does
/// not hold.
pub fn plan_days(from: Date, today: Date, calendar: &SessionCalendar, catalog: &Catalog) -> (r:
    Vec<PartitionKey>)
    ensures
        r@ == due(*catalog, days_down(*calendar, from.epoch_day as int, today.epoch_day as int)),
{
    let days = days_descending(from, today, calendar);
    select_due(&days, catalog)
}

/// The days of a partition that are still to be fetched: from `from` up
/// to, but not including, `to`.
#[derive(Clone, Copy, Debug, PartialEq, Eq, Structural)]
pub struct DaySpan {
    pub from: Date,
    pub to: Date,
}

/// What is left to fetch of a partition that covers the days from `start`
/// up to, but not including, `end`: everything from the day after the
/// partition's last committed row, or from `start` where nothing is
/// committed; `None` where no day is left.
pub open spec fn spec_remaining(start: Date, end: Date, committed: Option<PartitionMeta>) -> Option<
    DaySpan,
> {
    let from: int = match committed {
        Some(meta) => Date::spec_of_nanos(meta.to_ts).epoch_day + 1,
        None => start.epoch_day as int,
    };
    if from < end.epoch_day {
        Some(DaySpan { from: Date { epoch_day: from as i32 }, to: end })
    } else {
        None
    }
}

/// Tells what is left to fetch of a partition that covers the days from
/// `start` up to, but not including, `end`.
pub fn remaining(start: Date, end: Date, committed: Option<PartitionMeta>) -> (r: Option<DaySpan>)
    ensures
        r == spec_remaining(start, end, committed),
        r matches Some(span) ==> span.from.epoch_day < span.to.epoch_day && span.to == end,
{
    let from: i32 = match committed {
        Some(meta) => {
            let last = Date::of_nanos(meta.to_ts);
            last.epoch_day + 1
        },
        None => start.epoch_day,
    };
    if from < end.epoch_day {
        Some(DaySpan { from: Date { epoch_day: from }, to: end })
    } else {
        None
    }
}

/// The day from which a table is fetched again when only the timestamp of
/// its last row is known: `gap` days after the day of that row, or `first`
/// where the table holds no row.
pub fn resume_after(last_ts: Option<i64>, first: Date, gap: u16) -> (r: Date)
    ensures
        r == match last_ts {
            Some(ts) => Date { epoch_day: (Date::spec_of_nanos(ts).epoch_day + gap) as i32 },
            None => first,
        },
        last_ts matches Some(ts) ==> r.epoch_day == Date::spec_of_nanos(ts).epoch_day + gap,
{
    match last_ts {
        Some(ts) => {
            let last = Date::of_nanos(ts);
            Date { epoch_day: last.epoch_day + gap as i32 }
        },
        None => first,
    }
}

/// A partition whose last committed row falls on or after the last day of
/// its span is not fetched again.
pub proof fn lemma_covered_span_not_refetched(start: Date, end: Date, meta: PartitionMeta)
    requires
        meta.to_ts >= (end.epoch_day - 1) * NANOS_PER_DAY,
    ensures
        spec_remaining(start, end, Some(meta)) is None,
{
    let ts = meta.to_ts as int;
    let day = end.epoch_day - 1;
    assert(ts / 86_400_000_000_000 >= day) by (nonlinear_arith)
        requires
            ts >= day * 86_400_000_000_000,
    ;
    crate::calendar::lemma_day_of_nanos(ts);
}

/// What is left to fetch of the partition of `year` on `today`: its days
/// up to, but not including, today.  `None` where nothing is left, or where
/// the calendar does not hold the year and the one after it.
pub open spec fn spec_year_span(year: i32, committed: Option<PartitionMeta>, today: Date) -> Option<
    DaySpan,
> {
    if year < i32::MAX {
        match (civil_to_epoch_day(year as int, 1, 1), civil_to_epoch_day(year + 1, 1, 1)) {
            (Some(start), Some(end)) => spec_remaining(
                Date { epoch_day: start as i32 },
                if end < today.epoch_day {
                    Date { epoch_day: end as i32 }
                } else {
                    today
                },
                committed,
            ),
            _ => None,
        }
    } else {
        None
    }
}

/// Tells what is left to fetch of the partition of `year` on `today`.
pub fn year_span(year: i32, catalog: &Catalog, today: Date) -> (r: Option<DaySpan>)
    ensures
        r == spec_year_span(year, find_in(catalog.partitions@, PartitionKey::Year(year)), today),
        r matches Some(span) ==> span.from.epoch_day < span.to.epoch_day && span.to.epoch_day
            <= today.epoch_day,
{
    if year == i32::MAX {
        return None;
    }
    match (Date::from_ymd(year, 1, 1), Date::from_ymd(year + 1, 1, 1)) {
        (Some(start), Some(end)) => {
            let to = if end.epoch_day < today.epoch_day {
                end
            } else {
                today
            };
            remaining(start, to, catalog.find(&PartitionKey::Year(year)))
        },
        _ => None,
    }
}

/// The work units of the batch of `year` on `today`: the trading days that
/// are left to fetch, in order; none where nothing is left.
pub fn year_batch(year: i32, catalog: &Catalog, today: Date, calendar: &SessionCalendar) -> (r:
    Vec<Date>)
    ensures
        r@ == match spec_year_span(
            year,
            find_in(catalog.partitions@, PartitionKey::Year(year)),
            today,
        ) {
            Some(span) => open_days(
                *calendar,
                span.from.epoch_day as int,
                span.to.epoch_day as int,
            ),
            None => Seq::<Date>::empty(),
        },
{
    match year_span(year, catalog, today) {
        Some(span) => (MarketDays { from: span.from, to: span.to }).collect(calendar),
        None => Vec::new(),
    }
}

/// What is left to fetch of the partition of `month` on `today`: the days
/// from the resume point through the earlier of the month's last day and
/// today, the span's `to` being the last day that is asked for.  `None`
/// where the resume point is not before that day, or where the calendar
/// does not hold the month and the one after it.
pub open spec fn spec_month_span(
    month: YearMonth,
    committed: Option<PartitionMeta>,
    today: Date,
) -> Option<DaySpan> {
    let next = month.spec_next();
    if month.month < 12 || month.year < i32::MAX {
        match (
            civil_to_epoch_day(month.year as int, month.month as int, 1),
            civil_to_epoch_day(next.year as int, next.month as int, 1),
        ) {
            (Some(start), Some(end)) => if end > i32::MIN {
                spec_remaining(
                    Date { epoch_day: start as i32 },
                    if end - 1 < today.epoch_day {
                        Date { epoch_day: (end - 1) as i32 }
                    } else {
                        today
                    },
                    committed,
                )
            } else {
                None
            },
            _ => None,
        }
    } else {
        None
    }
}

/// Tells what is left to fetch of the partition of `month` on `today`.
pub fn month_span(month: &YearMonth, catalog: &Catalog, today: Date) -> (r: Option<DaySpan>)
    requires
        month.wf(),
    ensures
        r == spec_month_span(
            *month,
            find_in(catalog.partitions@, PartitionKey::Month(*month)),
            today,
        ),
        r matches Some(span) ==> span.from.epoch_day < span.to.epoch_day && span.to.epoch_day
            <= today.epoch_day,
{
    if month.month == 12 && month.year == i32::MAX {
        return None;
    }
    let next = month.next();
    match (month.first_day(), next.first_day()) {
        (Some(start), Some(end)) => {
            if end.epoch_day == i32::MIN {
                return None;
            }
            let last = Date { epoch_day: end.epoch_day - 1 };
            let to = if last.epoch_day < today.epoch_day {
                last
            } else {
                today
            };
            remaining(start, to, catalog.find(&PartitionKey::Month(*month)))
        },
        _ => None,
    }
}

/// What to fetch for the partition of one day: the day, and the timestamp
/// after which records are wanted where the partition already holds rows.
#[derive(Clone, Copy, Debug, PartialEq, Eq, Structural)]
pub struct TopUp {
    pub span: DaySpan,
    pub after: Option<i64>,
}

/// What is left to fetch of the partition of the single day `day`: the
/// whole day where the store holds no row of it, and what is later than the
/// last committed row where it does; `None` where that row is the last
/// nanosecond of the day or later, and for the last day that can be told.
pub open spec fn spec_day_top_up(day: Date, committed: Option<PartitionMeta>) -> Option<TopUp> {
    let span = DaySpan { from: day, to: Date { epoch_day: (day.epoch_day + 1) as i32 } };
    if day.epoch_day < i32::MAX {
        match committed {
            None => Some(TopUp { span, after: None }),
            Some(meta) => if meta.to_ts + 1 < (day.epoch_day + 1) * NANOS_PER_DAY {
                Some(TopUp { span, after: Some(meta.to_ts) })
            } else {
                None
            },
        }
    } else {
        None
    }
}

/// Tells what is left to fetch of the partition of the single day `day`.
pub fn day_top_up(day: Date, catalog: &Catalog) -> (r: Option<TopUp>)
    ensures
        r == spec_day_top_up(day, find_in(catalog.partitions@, PartitionKey::Day(day))),
{
    if day.epoch_day == i32::MAX {
        return None;
    }
    let span = DaySpan { from: day, to: Date { epoch_day: day.epoch_day + 1 } };
    match catalog.find(&PartitionKey::Day(day)) {
        None => Some(TopUp { span, after: None }),
        Some(meta) => {
            let next: i64 = day.epoch_day as i64 + 1;
            assert(-0x1_0000_0000_0000_0000_0000 <= next * 86_400_000_000_000
                <= 0x1_0000_0000_0000_0000_0000) by (nonlinear_arith)
                requires
                    -0x1_0000_0000 <= next <= 0x1_0000_0000,
            ;
            let end: i128 = next as i128 * NANOS_PER_DAY as i128;
            if meta.to_ts as i128 + 1 < end {
                Some(TopUp { span, after: Some(meta.to_ts) })
            } else {
                None
            }
        },
    }
}

} // verus!

//! Civil dates as day numbers, month arithmetic and trading sessions.

use vstd::prelude::*;

verus! {

/// Nanoseconds in one civil day.
pub const NANOS_PER_DAY: i64 = 86_400_000_000_000;

/// The last day number, on either side of the epoch, whose midnight is a
/// signed 64-bit count of nanoseconds.
pub const MAX_NANOS_DAY: i32 = 106_751;

/// The earliest year of the proleptic Gregorian calendar that a date can carry.
pub const MIN_YEAR: i32 = -262_143;

/// The latest year of the proleptic Gregorian calendar that a date can carry.
pub const MAX_YEAR: i32 = 262_142;

/// A civil date, held as the number of days since 1970-01-01.
#[derive(Clone, Copy, Debug, PartialEq, Eq, Structural)]
pub struct Date {
    pub epoch_day: i32,
}

/// A date written out as year, month (1 to 12) and day of month (1 to 31).
#[derive(Clone, Copy, Debug, PartialEq, Eq, Structural)]
pub struct Civil {
    pub year: i32,
    pub month: u32,
    pub day: u32,
}

/// The epoch day of a calendar date in the proleptic Gregorian calendar, or
/// `None` where that date does not exist or lies outside the supported years.
pub uninterp spec fn civil_to_epoch_day(year: int, month: int, day: int) -> Option<int>;

/// Year, month and day of an epoch day in the proleptic Gregorian calendar, or
/// `None` where the day lies outside the supported years.
pub uninterp spec fn epoch_day_to_civil(epoch_day: int) -> Option<(int, int, int)>;

/// Calls `chrono::NaiveDate::from_ymd_opt` and reads the date back with
/// `to_epoch_days`.  Not proved: that the result is the calendar's day number
/// for the given date, that nothing comes back for a month outside 1..=12, a
/// day outside 1..=31 or a year outside the supported range, that the first
/// day of every month of a supported year exists, and that the day number
/// reads back as the date it was made from.
#[verifier::external_body]
fn civil_epoch_day(year: i32, month: u32, day: u32) -> (r: Option<i32>)
    ensures
        r matches Some(n) ==> civil_to_epoch_day(year as int, month as int, day as int) == Some(
            n as int,
        ),
        r is None ==> civil_to_epoch_day(year as int, month as int, day as int) is None,
        r is Some ==> MIN_YEAR <= year <= MAX_YEAR && 1 <= month <= 12 && 1 <= day <= 31,
        MIN_YEAR <= year <= MAX_YEAR && 1 <= month <= 12 && day == 1 ==> r is Some,
        r matches Some(n) ==> epoch_day_to_civil(n as int) == Some(
            (year as int, month as int, day as int),
        ),
{
    chrono::NaiveDate::from_ymd_opt(year, month, day).map(|d| d.to_epoch_days())
}

/// Calls `chrono::NaiveDate::from_epoch_days` and reads year, month and day
/// off the date.  Not proved: that the triple is the calendar date of the
/// given day number, that its year is a supported one, its month within
/// 1..=12 and its day within 1..=31, that the calendar reaches every day on
/// which a 64-bit count of nanoseconds can fall, and that the date makes the
/// day number it was read from.
#[verifier::external_body]
fn epoch_day_civil(epoch_day: i32) -> (r: Option<(i32, u32, u32)>)
    ensures
        r matches Some(c) ==> epoch_day_to_civil(epoch_day as int) == Some(
            (c.0 as int, c.1 as int, c.2 as int),
        ) && MIN_YEAR <= c.0 <= MAX_YEAR && 1 <= c.1 <= 12 && 1 <= c.2 <= 31,
        r is None ==> epoch_day_to_civil(epoch_day as int) is None,
        -MAX_NANOS_DAY - 1 <= epoch_day <= MAX_NANOS_DAY ==> r is Some,
        r matches Some(c) ==> civil_to_epoch_day(c.0 as int, c.1 as int, c.2 as int) == Some(
            epoch_day as int,
        ),
{
    chrono::NaiveDate::from_epoch_days(epoch_day).map(
        |d| (chrono::Datelike::year(&d), chrono::Datelike::month(&d), chrono::Datelike::day(&d)),
    )
}

impl Date {
    /// The date of a calendar day, where the calendar has that day.
    pub fn from_ymd(year: i32, month: u32, day: u32) -> (r: Option<Date>)
        ensures
            r == match civil_to_epoch_day(year as int, month as int, day as int) {
                Some(n) => Some(Date { epoch_day: n as i32 }),
                None => None,
            },
            r matches Some(d) ==> civil_to_epoch_day(year as int, month as int, day as int)
                == Some(d.epoch_day as int),
            MIN_YEAR <= year <= MAX_YEAR && 1 <= month <= 12 && day == 1 ==> r is Some,
            r matches Some(d) ==> epoch_day_to_civil(d.epoch_day as int) == Some(
                (year as int, month as int, day as int),
            ),
    {
        match civil_epoch_day(year, month, day) {
            Some(n) => Some(Date { epoch_day: n }),
            None => None,
        }
    }

    /// Year, month and day of this date, where the calendar reaches it.
    pub fn civil(&self) -> (r: Option<Civil>)
        ensures
            r matches Some(c) ==> epoch_day_to_civil(self.epoch_day as int) == Some(
                (c.year as int, c.month as int, c.day as int),
            ) && MIN_YEAR <= c.year <= MAX_YEAR && 1 <= c.month <= 12 && 1 <= c.day <= 31,
            r is None ==> epoch_day_to_civil(self.epoch_day as int) is None,
            -MAX_NANOS_DAY - 1 <= self.epoch_day <= MAX_NANOS_DAY ==> r is Some,
            r matches Some(c) ==> civil_to_epoch_day(
                c.year as int,
                c.month as int,
                c.day as int,
            ) == Some(self.epoch_day as int),
    {
        match epoch_day_civil(self.epoch_day) {
            Some(c) => Some(Civil { year: c.0, month: c.1, day: c.2 }),
            None => None,
        }
    }

    /// Midnight at the start of a day, in nanoseconds since the epoch.
    pub open spec fn spec_midnight_nanos(self) -> int {
        self.epoch_day as int * NANOS_PER_DAY as int
    }

    /// Midnight at the start of this day in nanoseconds since the epoch, or
    /// `None` where that count does not fit 64 bits.
    pub fn midnight_nanos(&self) -> (r: Option<i64>)
        ensures
            r == if -MAX_NANOS_DAY <= self.epoch_day <= MAX_NANOS_DAY {
                Some(self.spec_midnight_nanos() as i64)
            } else {
                None::<i64>
            },
            r matches Some(ts) ==> ts as int == self.spec_midnight_nanos(),
    {
        let day: i64 = self.epoch_day as i64;
        assert(-MAX_NANOS_DAY <= day <= MAX_NANOS_DAY ==> i64::MIN <= day * NANOS_PER_DAY
            <= i64::MAX) by (nonlinear_arith)
            requires
                NANOS_PER_DAY == 86_400_000_000_000,
                MAX_NANOS_DAY == 106_751,
        ;
        assert(!(-MAX_NANOS_DAY <= day <= MAX_NANOS_DAY) ==> !(i64::MIN <= day * NANOS_PER_DAY
            <= i64::MAX)) by (nonlinear_arith)
            requires
                NANOS_PER_DAY == 86_400_000_000_000,
                MAX_NANOS_DAY == 106_751,
        ;
        day.checked_mul(NANOS_PER_DAY)
    }

    /// The day on which a nanosecond timestamp falls.
    pub open spec fn spec_of_nanos(ts: i64) -> Date {
        Date { epoch_day: (ts as int / NANOS_PER_DAY as int) as i32 }
    }

    /// The day on which a nanosecond timestamp falls: timestamps before the
    /// epoch belong to the day whose midnight precedes them.
    pub fn of_nanos(ts: i64) -> (r: Date)
        ensures
            r == Date::spec_of_nanos(ts),
            r.spec_midnight_nanos() <= ts < r.spec_midnight_nanos() + NANOS_PER_DAY,
            -MAX_NANOS_DAY - 1 <= r.epoch_day <= MAX_NANOS_DAY,
    {
        let ghost q: int = ts as int / NANOS_PER_DAY as int;
        proof {
            lemma_day_of_nanos(ts as int);
        }
        if ts >= 0 {
            let d: i64 = ts / NANOS_PER_DAY;
            Date { epoch_day: d as i32 }
        } else {
            let back: i64 = -(ts + 1);
            let whole: i64 = back / NANOS_PER_DAY;
            assert(-whole - 1 == q) by (nonlinear_arith)
                requires
                    back == -(ts + 1),
                    back >= 0,
                    whole == back / 86_400_000_000_000,
                    q == ts as int / 86_400_000_000_000,
            ;
            let d: i64 = -whole - 1;
            Date { epoch_day: d as i32 }
        }
    }

    /// The day after this one, or `None` at the end of the day numbers.
    pub fn succ(&self) -> (r: Option<Date>)
        ensures
            r == if self.epoch_day < i32::MAX {
                Some(Date { epoch_day: (self.epoch_day + 1) as i32 })
            } else {
                None::<Date>
            },
    {
        if self.epoch_day < i32::MAX {
            Some(Date { epoch_day: self.epoch_day + 1 })
        } else {
            None
        }
    }
}

/// A calendar month of a given year.
#[derive(Clone, Copy, Debug, PartialEq, Eq, Structural)]
pub struct YearMonth {
    pub year: i32,
    pub month: u32,
}

impl YearMonth {
    /// The month number is one of the twelve.
    pub open spec fn wf(self) -> bool {
        1 <= self.month <= 12
    }

    /// The position of the month on the line of all months.
    pub open spec fn index(self) -> int {
        self.year as int * 12 + (self.month as int - 1)
    }

    /// The month that follows, December rolling over into January.
    pub open spec fn spec_next(self) -> YearMonth {
        if self.month == 12 {
            YearMonth { year: (self.year + 1) as i32, month: 1 }
        } else {
            YearMonth { year: self.year, month: (self.month + 1) as u32 }
        }
    }

    /// The month that precedes, January rolling back into December.
    pub open spec fn spec_prev(self) -> YearMonth {
        if self.month == 1 {
            YearMonth { year: (self.year - 1) as i32, month: 12 }
        } else {
            YearMonth { year: self.year, month: (self.month - 1) as u32 }
        }
    }

    /// Whether the month number is one of the twelve.
    pub fn is_valid(&self) -> (r: bool)
        ensures
            r == self.wf(),
    {
        1 <= self.month && self.month <= 12
    }

    /// The month that follows this one.
    pub fn next(&self) -> (r: YearMonth)
        requires
            self.wf(),
            self.month < 12 || self.year < i32::MAX,
        ensures
            r == self.spec_next(),
            r.wf(),
            r.index() == self.index() + 1,
    {
        if self.month == 12 {
            YearMonth { year: self.year + 1, month: 1 }
        } else {
            YearMonth { year: self.year, month: self.month + 1 }
        }
    }

    /// The month that precedes this one.
    pub fn prev(&self) -> (r: YearMonth)
        requires
            self.wf(),
            self.month > 1 || self.year > i32::MIN,
        ensures
            r == self.spec_prev(),
            r.wf(),
            r.index() == self.index() - 1,
    {
        if self.month == 1 {
            YearMonth { year: self.year - 1, month: 12 }
        } else {
            YearMonth { year: self.year, month: self.month - 1 }
        }
    }

    /// The month in which a date falls, where the calendar reaches the date.
    pub fn of(date: &Date) -> (r: Option<YearMonth>)
        ensures
            match epoch_day_to_civil(date.epoch_day as int) {
                Some(c) => r == Some(YearMonth { year: c.0 as i32, month: c.1 as u32 }),
                None => r is None,
            },
            r matches Some(m) ==> m.wf() && MIN_YEAR <= m.year <= MAX_YEAR,
            -MAX_NANOS_DAY - 1 <= date.epoch_day <= MAX_NANOS_DAY ==> r is Some,
    {
        match date.civil() {
            Some(c) => Some(YearMonth { year: c.year, month: c.month }),
            None => None,
        }
    }

    /// The first day of the month, where the calendar has the year.
    pub fn first_day(&self) -> (r: Option<Date>)
        ensures
            r == match civil_to_epoch_day(self.year as int, self.month as int, 1) {
                Some(n) => Some(Date { epoch_day: n as i32 }),
                None => None,
            },
            r matches Some(d) ==> civil_to_epoch_day(self.year as int, self.month as int, 1)
                == Some(d.epoch_day as int),
            self.wf() && MIN_YEAR <= self.year <= MAX_YEAR ==> r is Some,
    {
        Date::from_ymd(self.year, self.month, 1)
    }
}

/// The date one month after `date` with the same day of month: `None` where
/// the calendar does not reach `date` or the following month has no such day.
pub open spec fn spec_add_month(date: Date) -> Option<Date> {
    match epoch_day_to_civil(date.epoch_day as int) {
        Some(c) => {
            let m = (YearMonth { year: c.0 as i32, month: c.1 as u32 }).spec_next();
            match civil_to_epoch_day(m.year as int, m.month as int, c.2) {
                Some(n) => Some(Date { epoch_day: n as i32 }),
                None => None,
            }
        },
        None => None,
    }
}

/// The date one month before `date` with the same day of month: `None` where
/// the calendar does not reach `date` or the preceding month has no such day.
pub open spec fn spec_sub_month(date: Date) -> Option<Date> {
    match epoch_day_to_civil(date.epoch_day as int) {
        Some(c) => {
            let m = (YearMonth { year: c.0 as i32, month: c.1 as u32 }).spec_prev();
            match civil_to_epoch_day(m.year as int, m.month as int, c.2) {
                Some(n) => Some(Date { epoch_day: n as i32 }),
                None => None,
            }
        },
        None => None,
    }
}

/// Moves a date one month ahead, keeping its day of month.  Moving the
/// result one month back gives the date again.
pub fn add_month(date: &Date) -> (r: Option<Date>)
    ensures
        r == spec_add_month(*date),
        r matches Some(e) ==> spec_sub_month(e) == Some(*date),
{
    match date.civil() {
        Some(c) => {
            let m = (YearMonth { year: c.year, month: c.month }).next();
            Date::from_ymd(m.year, m.month, c.day)
        },
        None => None,
    }
}

/// Moves a date one month back, keeping its day of month.  Moving the
/// result one month ahead gives the date again.
pub fn sub_month(date: &Date) -> (r: Option<Date>)
    ensures
        r == spec_sub_month(*date),
        r matches Some(e) ==> spec_add_month(e) == Some(*date),
{
    match date.civil() {
        Some(c) => {
            let m = (YearMonth { year: c.year, month: c.month }).prev();
            Date::from_ymd(m.year, m.month, c.day)
        },
        None => None,
    }
}

/// The trading sessions of a run of consecutive days: `open[i]` tells whether
/// the market trades on the day `i` days after `first`.  Days outside the run
/// count as closed.
#[derive(Clone, Debug, PartialEq, Eq)]
pub struct SessionCalendar {
    pub first: Date,
    pub open: Vec<bool>,
}

impl SessionCalendar {
    /// Whether the market trades on the day with the given number.
    pub open spec fn opens(self, epoch_day: int) -> bool {
        let i = epoch_day - self.first.epoch_day as int;
        0 <= i < self.open@.len() && epoch_day <= i32::MAX && self.open@[i]
    }

    /// `day` is the earliest day at or after `from` on which the market
    /// trades.
    pub open spec fn first_open(self, from: int, day: int) -> bool {
        &&& from <= day
        &&& self.opens(day)
        &&& forall|e: int| from <= e < day ==> !self.opens(e)
    }

    /// The market trades on some day at or after `from`.
    pub open spec fn opens_from(self, from: int) -> bool {
        exists|e: int| from <= e && self.opens(e)
    }

    /// Whether the market trades on `day`.
    pub fn is_open(&self, day: &Date) -> (r: bool)
        ensures
            r == self.opens(day.epoch_day as int),
    {
        let i: i64 = day.epoch_day as i64 - self.first.epoch_day as i64;
        if i < 0 {
            return false;
        }
        let len: usize = self.open.len();
        if i as u64 >= len as u64 {
            return false;
        }
        self.open[i as usize]
    }
}

/// Every day from `from` up to, but not including, `to`, in order.
pub open spec fn days_between(from: int, to: int) -> Seq<Date> {
    Seq::new(
        if to > from {
            (to - from) as nat
        } else {
            0
        },
        |i: int| Date { epoch_day: (from + i) as i32 },
    )
}

/// The test that picks the days on which the market trades.
pub open spec fn trades_on(calendar: SessionCalendar) -> spec_fn(Date) -> bool {
    |d: Date| calendar.opens(d.epoch_day as int)
}

/// The days from `from` up to, but not including, `to` on which the market
/// trades, in order.
pub open spec fn open_days(calendar: SessionCalendar, from: int, to: int) -> Seq<Date> {
    days_between(from, to).filter(trades_on(calendar))
}

/// Walks the trading days of a half-open range of dates.
#[derive(Clone, Copy, Debug, PartialEq, Eq, Structural)]
pub struct MarketDays {
    pub from: Date,
    pub to: Date,
}

impl MarketDays {
    /// The walk over the trading days that follow `from` and precede `to`.
    pub fn after(from: Date, to: Date) -> (r: Option<MarketDays>)
        ensures
            r == if from.epoch_day < i32::MAX {
                Some(MarketDays { from: Date { epoch_day: (from.epoch_day + 1) as i32 }, to })
            } else {
                None::<MarketDays>
            },
    {
        match from.succ() {
            Some(next) => Some(MarketDays { from: next, to }),
            None => None,
        }
    }

    /// Looks for the earliest trading day at or after `from`.  Where that
    /// day lies before `to` it is handed out, and `from` moves to the day
    /// after it.  Where it does not, nothing is handed out and `from` stays
    /// on that day, which may lie past `to`.  Where the calendar has no
    /// trading day at or after `from`, nothing is handed out and `from`
    /// moves to `to`, unless it was there or past it.
    pub fn next(&mut self, calendar: &SessionCalendar) -> (r: Option<Date>)
        ensures
            final(self).to == old(self).to,
            match r {
                Some(d) => {
                    &&& calendar.first_open(old(self).from.epoch_day as int, d.epoch_day as int)
                    &&& d.epoch_day < old(self).to.epoch_day
                    &&& final(self).from.epoch_day == d.epoch_day + 1
                },
                None => {
                    &&& forall|e: int|
                        old(self).from.epoch_day <= e < old(self).to.epoch_day
                            ==> !calendar.opens(e)
                    &&& if calendar.opens_from(old(self).from.epoch_day as int) {
                        &&& calendar.first_open(
                            old(self).from.epoch_day as int,
                            final(self).from.epoch_day as int,
                        )
                        &&& final(self).from.epoch_day >= old(self).to.epoch_day
                    } else {
                        final(self).from == if old(self).from.epoch_day < old(self).to.epoch_day {
                            old(self).to
                        } else {
                            old(self).from
                        }
                    }
                },
            },
    {
        let start: i32 = self.from.epoch_day;
        let first: i64 = calendar.first.epoch_day as i64;
        let end: i128 = first as i128 + calendar.open.len() as i128;
        let mut day: i64 = if start as i64 > first {
            start as i64
        } else {
            first
        };
        while day <= i32::MAX as i64 && (day as i128) < end
            invariant
                *self == *old(self),
                start == old(self).from.epoch_day,
                first == calendar.first.epoch_day,
                end == first + calendar.open@.len(),
                first <= day <= i32::MAX + 1,
                start <= day,
                forall|e: int| start <= e < day ==> !calendar.opens(e),
            decreases i32::MAX + 1 - day,
        {
            if calendar.open[(day - first) as usize] {
                assert(calendar.first_open(start as int, day as int));
                assert(calendar.opens_from(start as int));
                let found = Date { epoch_day: day as i32 };
                if found.epoch_day < self.to.epoch_day {
                    self.from = Date { epoch_day: found.epoch_day + 1 };
                    return Some(found);
                } else {
                    self.from = found;
                    return None;
                }
            }
            day = day + 1;
        }
        assert(!calendar.opens_from(start as int));
        if start < self.to.epoch_day {
            self.from = self.to;
        }
        None
    }

    /// All trading days left in the range, in order.
    pub fn collect(&self, calendar: &SessionCalendar) -> (r: Vec<Date>)
        ensures
            r@ == open_days(*calendar, self.from.epoch_day as int, self.to.epoch_day as int),
    {
        let mut out: Vec<Date> = Vec::new();
        let mut day: i32 = self.from.epoch_day;
        let ghost from: int = self.from.epoch_day as int;
        let ghost pred = trades_on(*calendar);
        proof {
            reveal(Seq::filter);
            assert(days_between(from, from).len() == 0);
        }
        while day < self.to.epoch_day
            invariant
                from == self.from.epoch_day,
                from <= day,
                from < self.to.epoch_day ==> day <= self.to.epoch_day,
                from >= self.to.epoch_day ==> day == from,
                pred == trades_on(*calendar),
                out@ == days_between(from, day as int).filter(pred),
            decreases self.to.epoch_day - day,
        {
            let here = Date { epoch_day: day };
            proof {
                assert(days_between(from, day + 1) =~= days_between(from, day as int).push(here));
                days_between(from, day as int).lemma_filter_push(here, pred);
            }
            if calendar.is_open(&here) {
                out.push(here);
            }
            day = day + 1;
        }
        proof {
            if from >= self.to.epoch_day {
                assert(days_between(from, self.to.epoch_day as int) =~= days_between(from, from));
            }
        }
        out
    }
}

/// The quotient that places a timestamp in its day is bounded, and the day's
/// midnight is the greatest midnight not after the timestamp.
pub proof fn lemma_day_of_nanos(ts: int)
    requires
        i64::MIN <= ts <= i64::MAX,
    ensures
        -106_752 <= ts / 86_400_000_000_000 <= 106_751,
        (ts / 86_400_000_000_000) * 86_400_000_000_000 <= ts < (ts / 86_400_000_000_000)
            * 86_400_000_000_000 + 86_400_000_000_000,
{
    assert(-106_752 <= ts / 86_400_000_000_000 <= 106_751 && (ts / 86_400_000_000_000)
        * 86_400_000_000_000 <= ts < (ts / 86_400_000_000_000) * 86_400_000_000_000
        + 86_400_000_000_000) by (nonlinear_arith)
        requires
            -0x8000_0000_0000_0000 <= ts <= 0x7fff_ffff_ffff_ffff,
    ;
}

} // verus!

//! The token bucket that all workers draw their permits from.
//!
//! The bucket is a value: it is told the time and answers with a permit or
//! with the time to wait.  Whoever holds it reads the clock and sleeps.

use vstd::arithmetic::div_mod::{lemma_fundamental_div_mod, lemma_hoist_over_denominator};
use vstd::prelude::*;

verus! {

/// Nanoseconds in one second.
pub const NANOS_PER_SECOND: u64 = 1_000_000_000;

/// The nanoseconds between two tokens at a rate of `per_second` tokens a
/// second, rounded up to whole nanoseconds.
pub open spec fn spec_interval(per_second: u64) -> u64 {
    ((NANOS_PER_SECOND + (per_second - 1)) / (per_second as int)) as u64
}

/// The answer to a request for a permit.
#[derive(Clone, Copy, Debug, PartialEq, Eq, Structural)]
pub enum Permit {
    /// A token was taken: the request may go out.
    Granted,
    /// The bucket is empty: it mints again in `nanos` nanoseconds.
    Wait { nanos: u64 },
}

/// A token bucket.  It holds at most `capacity` tokens and mints `quantum`
/// tokens every `interval` nanoseconds; `refilled_at` is the time up to
/// which minting has been accounted for.
#[derive(Clone, Copy, Debug, PartialEq, Eq, Structural)]
pub struct TokenBucket {
    pub capacity: u64,
    pub quantum: u64,
    pub interval: u64,
    pub available: u64,
    pub refilled_at: u64,
}

impl TokenBucket {
    /// The bucket can hold a token, mints at least one at a time, its
    /// interval is not empty and it holds no more than its capacity.
    pub open spec fn wf(self) -> bool {
        &&& self.capacity >= 1
        &&& self.quantum >= 1
        &&& self.interval >= 1
        &&& self.available <= self.capacity
    }

    /// The whole intervals that have passed at `now` since minting was last
    /// accounted for.
    pub open spec fn ticks(self, now: u64) -> int {
        if now > self.refilled_at {
            (now - self.refilled_at) / (self.interval as int)
        } else {
            0
        }
    }

    /// The bucket with the tokens of all whole intervals up to `now` minted,
    /// as far as they fit.
    pub open spec fn refilled(self, now: u64) -> TokenBucket {
        let minted = self.available + self.ticks(now) * self.quantum;
        TokenBucket {
            available: if minted > self.capacity {
                self.capacity
            } else {
                minted as u64
            },
            refilled_at: (self.refilled_at + self.ticks(now) * self.interval) as u64,
            ..self
        }
    }

    /// The nanoseconds from `now` until the bucket mints next.
    pub open spec fn until_next(self, now: u64) -> u64 {
        let due = self.refilled_at + self.interval - now;
        if due > u64::MAX {
            u64::MAX
        } else {
            due as u64
        }
    }

    /// A request at `now`: the bucket is brought up to date, then gives a
    /// token if it has one and else says how long until it mints.
    pub open spec fn spec_acquire(self, now: u64) -> (TokenBucket, Permit) {
        let b = self.refilled(now);
        if b.available >= 1 {
            (TokenBucket { available: (b.available - 1) as u64, ..b }, Permit::Granted)
        } else {
            (b, Permit::Wait { nanos: b.until_next(now) })
        }
    }

    /// How many of the requests made at `times`, one after the other, are
    /// granted.
    pub open spec fn granted(self, times: Seq<u64>) -> nat
        decreases times.len(),
    {
        if times.len() == 0 {
            0
        } else {
            let (next, permit) = self.spec_acquire(times[0]);
            let one: nat = if permit is Granted {
                1
            } else {
                0
            };
            one + next.granted(times.drop_first())
        }
    }

    /// A full bucket at time `now`, or `None` where the bucket could hold
    /// nothing, would mint nothing or had an empty interval.
    pub fn new(capacity: u64, quantum: u64, interval: u64, now: u64) -> (r: Option<TokenBucket>)
        ensures
            r == if capacity >= 1 && quantum >= 1 && interval >= 1 {
                Some(
                    TokenBucket { capacity, quantum, interval, available: capacity, refilled_at: now },
                )
            } else {
                None::<TokenBucket>
            },
            r matches Some(b) ==> b.wf(),
    {
        if capacity >= 1 && quantum >= 1 && interval >= 1 {
            Some(TokenBucket { capacity, quantum, interval, available: capacity, refilled_at: now })
        } else {
            None
        }
    }

    /// A full bucket that mints one token at a time and no more than
    /// `per_second` of them a second: its interval is the least whole
    /// number of nanoseconds that keeps to that rate.  `None` where the rate
    /// is zero or above one token a nanosecond, or the bucket could hold
    /// nothing.
    pub fn per_second(per_second: u64, capacity: u64, now: u64) -> (r: Option<TokenBucket>)
        ensures
            r == if 1 <= per_second <= NANOS_PER_SECOND && capacity >= 1 {
                Some(
                    TokenBucket {
                        capacity,
                        quantum: 1,
                        interval: spec_interval(per_second),
                        available: capacity,
                        refilled_at: now,
                    },
                )
            } else {
                None::<TokenBucket>
            },
            r matches Some(b) ==> b.wf(),
    {
        if per_second == 0 || per_second > NANOS_PER_SECOND {
            return None;
        }
        let interval: u64 = (NANOS_PER_SECOND + (per_second - 1)) / per_second;
        assert(interval >= 1) by (nonlinear_arith)
            requires
                1 <= per_second <= 1_000_000_000,
                interval == (1_000_000_000u64 + (per_second - 1)) / (per_second as int),
        ;
        TokenBucket::new(capacity, 1, interval, now)
    }

    /// Whether the bucket is one that permits can be asked of.
    pub fn is_valid(&self) -> (r: bool)
        ensures
            r == self.wf(),
    {
        self.capacity >= 1 && self.quantum >= 1 && self.interval >= 1 && self.available
            <= self.capacity
    }

    /// Asks for one permit at time `now`.
    pub fn acquire(&mut self, now: u64) -> (r: Permit)
        requires
            old(self).wf(),
        ensures
            (*final(self), r) == old(self).spec_acquire(now),
            final(self).wf(),
    {
        let ghost before = *self;
        if now > self.refilled_at {
            let elapsed: u64 = now - self.refilled_at;
            let whole: u64 = elapsed / self.interval;
            let rest: u64 = elapsed % self.interval;
            proof {
                lemma_fundamental_div_mod(elapsed as int, self.interval as int);
                assert(whole * self.quantum <= 0xffff_ffff_ffff_ffff * 0xffff_ffff_ffff_ffff)
                    by (nonlinear_arith)
                    requires
                        0 <= whole <= 0xffff_ffff_ffff_ffff,
                        0 <= self.quantum <= 0xffff_ffff_ffff_ffff,
                ;
                assert(self.interval * whole == whole * self.interval) by (nonlinear_arith);
                assert(whole == before.ticks(now));
                assert(elapsed - rest == before.ticks(now) * before.interval);
            }
            let minted: u128 = self.available as u128 + whole as u128 * self.quantum as u128;
            assert(minted == before.available + before.ticks(now) * before.quantum);
            self.available = if minted > self.capacity as u128 {
                self.capacity
            } else {
                minted as u64
            };
            self.refilled_at = self.refilled_at + (elapsed - rest);
        } else {
            proof {
                assert(before.ticks(now) == 0);
                assert(before.ticks(now) * before.quantum == 0) by (nonlinear_arith)
                    requires
                        before.ticks(now) == 0,
                ;
                assert(before.ticks(now) * before.interval == 0) by (nonlinear_arith)
                    requires
                        before.ticks(now) == 0,
                ;
            }
        }
        assert(*self == before.refilled(now));
        if self.available >= 1 {
            self.available = self.available - 1;
            Permit::Granted
        } else {
            let due: u128 = self.refilled_at as u128 + self.interval as u128 - now as u128;
            let nanos: u64 = if due > u64::MAX as u128 {
                u64::MAX
            } else {
                due as u64
            };
            Permit::Wait { nanos }
        }
    }
}

/// What a bucket can still hand out up to the time `horizon`: the tokens it
/// holds and those of the whole intervals left.
pub open spec fn potential(bucket: TokenBucket, horizon: int) -> int {
    bucket.available + bucket.quantum * ((horizon - bucket.refilled_at) / (bucket.interval as int))
}

/// Bringing a bucket up to date mints nothing that was not due.
proof fn lemma_refill(bucket: TokenBucket, now: u64, horizon: int)
    requires
        bucket.wf(),
        now <= horizon,
        bucket.refilled_at <= horizon,
    ensures
        bucket.refilled(now).wf(),
        bucket.refilled(now).refilled_at <= horizon,
        bucket.refilled(now).refilled_at >= bucket.refilled_at,
        bucket.refilled(now).capacity == bucket.capacity,
        bucket.refilled(now).quantum == bucket.quantum,
        bucket.refilled(now).interval == bucket.interval,
        potential(bucket.refilled(now), horizon) <= potential(bucket, horizon),
        now > bucket.refilled_at ==> now - bucket.refilled(now).refilled_at < bucket.interval,
{
    let t = bucket.ticks(now);
    let i = bucket.interval as int;
    let q = bucket.quantum as int;
    if now > bucket.refilled_at {
        let elapsed = now - bucket.refilled_at;
        lemma_fundamental_div_mod(elapsed, i);
        assert(0 <= t && t * i <= elapsed && elapsed - t * i < i) by (nonlinear_arith)
            requires
                elapsed == i * t + elapsed % i,
                0 <= elapsed % i < i,
                i > 0,
                elapsed > 0,
        ;
        let x = horizon - bucket.refilled_at;
        lemma_hoist_over_denominator(x, -t, i as nat);
        assert(x + (-t) * i == x - t * i) by (nonlinear_arith);
        assert(q * (x / i + (-t)) == q * (x / i) - t * q) by (nonlinear_arith);
    } else {
        assert(t * i == 0) by (nonlinear_arith)
            requires
                t == 0,
        ;
        assert(t * q == 0) by (nonlinear_arith)
            requires
                t == 0,
        ;
    }
}

/// From requests that all come by the time `horizon`, a bucket grants no
/// more than it holds and the whole intervals up to `horizon` mint.
proof fn lemma_granted_within(bucket: TokenBucket, times: Seq<u64>, horizon: int)
    requires
        bucket.wf(),
        bucket.refilled_at <= horizon,
        forall|k: int| 0 <= k < times.len() ==> #[trigger] times[k] <= horizon,
    ensures
        bucket.granted(times) <= potential(bucket, horizon),
    decreases times.len(),
{
    let i = bucket.interval as int;
    let q = bucket.quantum as int;
    if times.len() == 0 {
        let x = horizon - bucket.refilled_at;
        assert(q * (x / i) >= 0) by (nonlinear_arith)
            requires
                x >= 0,
                i > 0,
                q >= 0,
        ;
    } else {
        let (next, permit) = bucket.spec_acquire(times[0]);
        let rest = times.drop_first();
        assert(times[0] <= horizon);
        lemma_refill(bucket, times[0], horizon);
        assert forall|k: int| 0 <= k < rest.len() implies #[trigger] rest[k] <= horizon by {
            assert(rest[k] == times[k + 1]);
        }
        lemma_granted_within(next, rest, horizon);
    }
}

/// Over any span of time a bucket grants no more than its capacity and
/// what it mints in the whole intervals of the span: at a ceiling of
/// `quantum` permits per `interval`, no more than the burst and the
/// ceiling times the span.
pub proof fn lemma_rate_bound(bucket: TokenBucket, times: Seq<u64>, span: nat)
    requires
        bucket.wf(),
        forall|k: int| 0 <= k < times.len() ==> #[trigger] times[k] <= bucket.refilled_at + span,
    ensures
        bucket.granted(times) <= bucket.capacity + bucket.quantum * (span as int / (
        bucket.interval as int)),
{
    lemma_granted_within(bucket, times, bucket.refilled_at + span);
    assert(bucket.refilled_at + span - bucket.refilled_at == span);
}

/// Over a span of time that begins anywhere at or after the time up to
/// which the bucket has minted, a bucket grants no more than its capacity
/// and what it mints in the whole intervals of the span and one more
/// interval, the one that was under way when the span began.
pub proof fn lemma_rate_bound_any_window(
    bucket: TokenBucket,
    times: Seq<u64>,
    begin: u64,
    span: nat,
)
    requires
        bucket.wf(),
        bucket.refilled_at <= begin,
        forall|k: int| 0 <= k < times.len() ==> begin <= #[trigger] times[k] <= begin + span,
    ensures
        bucket.granted(times) <= bucket.capacity + bucket.quantum * (span as int / (
        bucket.interval as int) + 1),
{
    let i = bucket.interval as int;
    let q = bucket.quantum as int;
    let horizon = begin + span;
    if times.len() == 0 {
        assert(q * (span as int / i + 1) >= 0) by (nonlinear_arith)
            requires
                span >= 0,
                i > 0,
                q >= 0,
        ;
    } else {
        let now = times[0];
        let (next, permit) = bucket.spec_acquire(now);
        let rest = times.drop_first();
        assert(begin <= now <= horizon);
        lemma_refill(bucket, now, horizon);
        let filled = bucket.refilled(now);
        assert forall|k: int| 0 <= k < rest.len() implies #[trigger] rest[k] <= horizon by {
            assert(rest[k] == times[k + 1]);
        }
        lemma_granted_within(next, rest, horizon);
        let left = horizon - filled.refilled_at;
        assert(left < span + i);
        assert(left / i <= span as int / i + 1) by (nonlinear_arith)
            requires
                0 <= left < span + i,
                i > 0,
        ;
        assert(q * (left / i) <= q * (span as int / i + 1)) by (nonlinear_arith)
            requires
                left / i <= span as int / i + 1,
                q >= 0,
        ;
    }
}

/// At a ceiling of `per_second` permits a second and a burst of
/// `capacity`, no more than `per_second` times `seconds` and `capacity`
/// permits are granted within `seconds` seconds.
pub proof fn lemma_rate_bound_per_second(
    per_second: u64,
    capacity: u64,
    now: u64,
    times: Seq<u64>,
    seconds: nat,
)
    requires
        1 <= per_second <= NANOS_PER_SECOND,
        capacity >= 1,
        forall|k: int| 0 <= k < times.len() ==> #[trigger] times[k] <= now + seconds * NANOS_PER_SECOND,
    ensures
        (TokenBucket {
            capacity,
            quantum: 1,
            interval: spec_interval(per_second),
            available: capacity,
            refilled_at: now,
        }).granted(times) <= capacity + per_second * seconds,
{
    let interval = spec_interval(per_second);
    let bucket = TokenBucket { capacity, quantum: 1, interval, available: capacity, refilled_at: now };
    let r = per_second as int;
    let i = interval as int;
    let span = seconds * NANOS_PER_SECOND;
    assert(i >= 1 && i * r >= 1_000_000_000) by (nonlinear_arith)
        requires
            1 <= r <= 1_000_000_000,
            i == (1_000_000_000 + (r - 1)) / r,
    ;
    assert(span / i <= r * seconds) by (nonlinear_arith)
        requires
            span == seconds * 1_000_000_000,
            i >= 1,
            i * r >= 1_000_000_000,
            r >= 1,
    ;
    lemma_rate_bound(bucket, times, span as nat);
    assert(bucket.quantum * (span / i) == span / i) by (nonlinear_arith)
        requires
            bucket.quantum == 1,
    ;
}

/// Who waits as long as an empty bucket says is served at the end of the
/// wait, as long as the clock has not run backwards and the end of the wait
/// is a time that can be told.
pub proof fn lemma_wait_suffices(bucket: TokenBucket, now: u64)
    requires
        bucket.wf(),
        bucket.refilled_at <= now,
        bucket.spec_acquire(now).1 is Wait,
        now + bucket.spec_acquire(now).1->nanos <= u64::MAX,
    ensures
        bucket.spec_acquire(now).0.spec_acquire(
            (now + bucket.spec_acquire(now).1->nanos) as u64,
        ).1 is Granted,
{
    let (b, permit) = bucket.spec_acquire(now);
    let wait = permit->nanos;
    let later = (now + wait) as u64;
    lemma_refill(bucket, now, now as int);
    let i = b.interval as int;
    assert(later == b.refilled_at + b.interval);
    assert((later - b.refilled_at) / i == 1) by (nonlinear_arith)
        requires
            later - b.refilled_at == i,
            i > 0,
    ;
    assert(b.ticks(later) == 1);
    assert(b.ticks(later) * b.quantum >= 1) by (nonlinear_arith)
        requires
            b.ticks(later) == 1,
            b.quantum >= 1,
    ;
}

} // verus!

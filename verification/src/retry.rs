//! What a worker does with the outcome of a fetch attempt.

use crate::error::Fatal;
use vstd::prelude::*;

verus! {

/// How many attempts a unit gets that covers everything of one day.
pub const SMALL_UNIT_ATTEMPTS: u32 = 10;

/// How many attempts a unit gets that is one symbol among thousands.
pub const PER_SYMBOL_ATTEMPTS: u32 = 50;

/// Why a fetch attempt brought no records.
#[derive(Clone, Copy, Debug, PartialEq, Eq, Structural)]
pub enum FetchError {
    /// The source said that it holds nothing for the unit.
    NoData,
    /// A record of the answer lies outside the time span that was asked for.
    OutOfRange { ts: i64 },
    /// The source answered with a status other than success.
    BadStatus { status: u16 },
    /// The request did not get through, or the answer could not be read.
    Transport,
}

/// What an error means for the unit.
#[derive(Clone, Copy, Debug, PartialEq, Eq, Structural)]
pub enum ErrorClass {
    /// The unit is complete and has no records.
    TerminalEmpty,
    /// The attempt may succeed when made again.
    Transient,
}

/// How one fetch attempt ended.
#[derive(Clone, Copy, Debug, PartialEq, Eq, Structural)]
pub enum Attempt {
    /// The source answered with the records of the unit.
    Fetched,
    /// The attempt failed.
    Failed(FetchError),
}

/// What the worker does next.
#[derive(Clone, Copy, Debug, PartialEq, Eq, Structural)]
pub enum Verdict {
    /// Hand the records to the aggregator: the unit is complete.
    Deliver,
    /// The unit is complete without records.
    Empty,
    /// Sleep for `sleep_secs` seconds, then make attempt number `attempt`.
    Retry { attempt: u32, sleep_secs: u64 },
    /// Give the unit up and end the run.
    Abort(Fatal),
}

/// The class of an error: only the source's own word that there is no data
/// ends a unit without records.
pub open spec fn spec_classify(error: FetchError) -> ErrorClass {
    if error is NoData {
        ErrorClass::TerminalEmpty
    } else {
        ErrorClass::Transient
    }
}

/// Tells what an error means for the unit.
pub fn classify(error: &FetchError) -> (r: ErrorClass)
    ensures
        r == spec_classify(*error),
{
    match error {
        FetchError::NoData => ErrorClass::TerminalEmpty,
        _ => ErrorClass::Transient,
    }
}

/// The seconds to sleep after the attempt with the given number has
/// failed: as many as attempts were made.
pub open spec fn spec_backoff(attempt: u32) -> u64 {
    attempt as u64
}

/// How often a unit is tried before the run gives up.
#[derive(Clone, Copy, Debug, PartialEq, Eq, Structural)]
pub struct RetryPolicy {
    pub max_attempts: u32,
}

impl RetryPolicy {
    /// The policy for units that cover a whole day.
    pub fn small_units() -> (r: RetryPolicy)
        ensures
            r.max_attempts == SMALL_UNIT_ATTEMPTS,
    {
        RetryPolicy { max_attempts: SMALL_UNIT_ATTEMPTS }
    }

    /// The policy for units that cover one symbol.
    pub fn per_symbol() -> (r: RetryPolicy)
        ensures
            r.max_attempts == PER_SYMBOL_ATTEMPTS,
    {
        RetryPolicy { max_attempts: PER_SYMBOL_ATTEMPTS }
    }

    /// The seconds to sleep after attempt number `attempt` has failed.
    pub fn backoff(&self, attempt: u32) -> (r: u64)
        ensures
            r == spec_backoff(attempt),
    {
        attempt as u64
    }

    /// What follows when, after `failures` failed attempts, one more
    /// attempt ended in `outcome`.
    pub open spec fn spec_decide(self, failures: u32, outcome: Attempt) -> Verdict {
        match outcome {
            Attempt::Fetched => Verdict::Deliver,
            Attempt::Failed(error) => if spec_classify(error) is TerminalEmpty {
                Verdict::Empty
            } else if failures + 1 >= self.max_attempts {
                Verdict::Abort(
                    Fatal::ExhaustedRetries {
                        attempts: if failures < u32::MAX {
                            (failures + 1) as u32
                        } else {
                            u32::MAX
                        },
                    },
                )
            } else {
                Verdict::Retry {
                    attempt: (failures + 2) as u32,
                    sleep_secs: spec_backoff((failures + 1) as u32),
                }
            },
        }
    }

    /// Decides what follows an attempt that was made after `failures`
    /// failed ones.
    pub fn decide(&self, failures: u32, outcome: Attempt) -> (r: Verdict)
        ensures
            r == self.spec_decide(failures, outcome),
    {
        match outcome {
            Attempt::Fetched => Verdict::Deliver,
            Attempt::Failed(error) => match classify(&error) {
                ErrorClass::TerminalEmpty => Verdict::Empty,
                ErrorClass::Transient => {
                    if failures == u32::MAX {
                        Verdict::Abort(Fatal::ExhaustedRetries { attempts: u32::MAX })
                    } else if failures + 1 >= self.max_attempts {
                        Verdict::Abort(Fatal::ExhaustedRetries { attempts: failures + 1 })
                    } else {
                        Verdict::Retry {
                            attempt: failures + 2,
                            sleep_secs: self.backoff(failures + 1),
                        }
                    }
                },
            },
        }
    }

    /// The verdict on a unit whose attempts ended, one after the other, in
    /// `outcomes`, the first of them made after `failures` failed attempts:
    /// the verdict on the first attempt that is not followed by a retry, or,
    /// where the outcomes run out on a retry, that retry.
    pub open spec fn spec_run(self, failures: u32, outcomes: Seq<Attempt>) -> Verdict
        decreases outcomes.len(),
    {
        if outcomes.len() == 0 {
            Verdict::Retry { attempt: (failures + 1) as u32, sleep_secs: 0 }
        } else {
            let verdict = self.spec_decide(failures, outcomes[0]);
            if verdict is Retry && outcomes.len() > 1 {
                self.spec_run((failures + 1) as u32, outcomes.drop_first())
            } else {
                verdict
            }
        }
    }
}

/// Where a work unit stands.
#[derive(Clone, Copy, Debug, PartialEq, Eq, Structural)]
pub enum Phase {
    /// The unit has not begun.
    Idle,
    /// The worker is waiting for a permit of the rate limiter.
    AwaitingPermit,
    /// A fetch is under way.
    Fetching,
    /// The worker sleeps before the next attempt.
    Backoff,
    /// The unit is complete and its records are delivered.
    Delivered,
    /// The unit is complete without records.
    Empty,
    /// The unit has failed for good.
    Failed,
}

/// What has happened to a work unit.
#[derive(Clone, Copy, Debug, PartialEq, Eq, Structural)]
pub enum Event {
    /// A worker has taken the unit.
    Start,
    /// The rate limiter has granted a permit.
    Permit,
    /// The fetch has ended.
    Outcome(Attempt),
    /// The sleep is over.
    Woke,
}

/// What the worker of a unit does next.
#[derive(Clone, Copy, Debug, PartialEq, Eq, Structural)]
pub enum Action {
    /// Ask the rate limiter for a permit.
    Acquire,
    /// Ask the source for the unit.
    Fetch,
    /// Sleep for `secs` seconds.
    Sleep { secs: u64 },
    /// Hand the records to the aggregator: the unit is complete.
    Deliver,
    /// Pass to the next unit: this one is complete without records.
    Skip,
    /// Give the unit up and end the run.
    Abort(Fatal),
    /// The event does not belong to the phase: nothing is to be done.
    Stay,
}

/// The run of one work unit: its policy, where it stands, how often it has
/// failed and why it failed last.
#[derive(Clone, Copy, Debug, PartialEq, Eq, Structural)]
pub struct UnitRun {
    pub policy: RetryPolicy,
    pub phase: Phase,
    pub failures: u32,
    pub last_error: Option<FetchError>,
}

impl UnitRun {
    /// The run with the outcome of a fetch taken in, and what follows: the
    /// verdict of the policy decides; an attempt that is to be made again
    /// counts as a failure, and the error of a failed attempt is kept.
    pub open spec fn spec_record(self, outcome: Attempt) -> (UnitRun, Verdict) {
        let verdict = self.policy.spec_decide(self.failures, outcome);
        (
            UnitRun {
                policy: self.policy,
                phase: match verdict {
                    Verdict::Deliver => Phase::Delivered,
                    Verdict::Empty => Phase::Empty,
                    Verdict::Retry { .. } => Phase::Backoff,
                    Verdict::Abort(_) => Phase::Failed,
                },
                failures: if verdict is Retry {
                    (self.failures + 1) as u32
                } else {
                    self.failures
                },
                last_error: match outcome {
                    Attempt::Failed(error) => Some(error),
                    Attempt::Fetched => self.last_error,
                },
            },
            verdict,
        )
    }

    /// The run after `event`, and what the worker does next.  A unit is
    /// fetched only on a permit, a permit is asked for at the start and
    /// after every sleep, and what follows a fetch is the verdict of the
    /// policy.  An event that does not belong to the phase changes nothing.
    pub open spec fn spec_step(self, event: Event) -> (UnitRun, Action) {
        match (self.phase, event) {
            (Phase::Idle, Event::Start) | (Phase::Backoff, Event::Woke) => (
                UnitRun { phase: Phase::AwaitingPermit, ..self },
                Action::Acquire,
            ),
            (Phase::AwaitingPermit, Event::Permit) => (
                UnitRun { phase: Phase::Fetching, ..self },
                Action::Fetch,
            ),
            (Phase::Fetching, Event::Outcome(outcome)) => (
                self.spec_record(outcome).0,
                match self.spec_record(outcome).1 {
                    Verdict::Deliver => Action::Deliver,
                    Verdict::Empty => Action::Skip,
                    Verdict::Retry { attempt, sleep_secs } => Action::Sleep { secs: sleep_secs },
                    Verdict::Abort(fatal) => Action::Abort(fatal),
                },
            ),
            _ => (self, Action::Stay),
        }
    }

    /// A unit that has not begun.
    pub fn new(policy: RetryPolicy) -> (r: UnitRun)
        ensures
            r == (UnitRun { policy, phase: Phase::Idle, failures: 0, last_error: None }),
    {
        UnitRun { policy, phase: Phase::Idle, failures: 0, last_error: None }
    }

    /// Takes the outcome of a fetch and gives the verdict of the policy.
    pub fn record(&mut self, outcome: Attempt) -> (r: Verdict)
        ensures
            (*final(self), r) == old(self).spec_record(outcome),
    {
        let verdict = self.policy.decide(self.failures, outcome);
        match outcome {
            Attempt::Failed(error) => {
                self.last_error = Some(error);
            },
            Attempt::Fetched => {},
        }
        match verdict {
            Verdict::Deliver => {
                self.phase = Phase::Delivered;
            },
            Verdict::Empty => {
                self.phase = Phase::Empty;
            },
            Verdict::Retry { .. } => {
                self.phase = Phase::Backoff;
                self.failures = self.failures + 1;
            },
            Verdict::Abort(_) => {
                self.phase = Phase::Failed;
            },
        }
        verdict
    }

    /// Takes what has happened to the unit and says what its worker does
    /// next.
    pub fn step(&mut self, event: Event) -> (r: Action)
        ensures
            (*final(self), r) == old(self).spec_step(event),
    {
        match (self.phase, event) {
            (Phase::Idle, Event::Start) | (Phase::Backoff, Event::Woke) => {
                self.phase = Phase::AwaitingPermit;
                Action::Acquire
            },
            (Phase::AwaitingPermit, Event::Permit) => {
                self.phase = Phase::Fetching;
                Action::Fetch
            },
            (Phase::Fetching, Event::Outcome(outcome)) => {
                match self.record(outcome) {
                    Verdict::Deliver => Action::Deliver,
                    Verdict::Empty => Action::Skip,
                    Verdict::Retry { attempt, sleep_secs } => Action::Sleep { secs: sleep_secs },
                    Verdict::Abort(fatal) => Action::Abort(fatal),
                }
            },
            _ => Action::Stay,
        }
    }
}

/// A fetch goes out only on a permit of the rate limiter, and only for a
/// unit that was waiting for one.
pub proof fn lemma_fetch_needs_permit(run: UnitRun, event: Event)
    ensures
        run.spec_step(event).1 is Fetch <==> run.phase is AwaitingPermit && event is Permit,
{
}

/// A unit that is complete or has failed for good stays as it is, whatever
/// happens.
pub proof fn lemma_ended_unit_stays(run: UnitRun, event: Event)
    requires
        run.phase is Delivered || run.phase is Empty || run.phase is Failed,
    ensures
        run.spec_step(event) == (run, Action::Stay),
{
}

/// A later attempt is never followed by a shorter sleep than an earlier one.
pub proof fn lemma_backoff_monotonic(earlier: u32, later: u32)
    requires
        earlier <= later,
    ensures
        spec_backoff(earlier) <= spec_backoff(later),
{
}

/// An attempt that fails for any reason but the source's own word that
/// there is no data.
pub open spec fn fails_transiently(outcome: Attempt) -> bool {
    outcome matches Attempt::Failed(error) && spec_classify(error) is Transient
}

/// A unit that fails on every attempt that its policy allows ends the run
/// with a fatal error that names the number of attempts: it is neither
/// delivered nor passed over as empty.
pub proof fn lemma_exhausted_is_fatal(policy: RetryPolicy, outcomes: Seq<Attempt>)
    requires
        policy.max_attempts >= 1,
        outcomes.len() == policy.max_attempts,
        forall|i: int| 0 <= i < outcomes.len() ==> fails_transiently(#[trigger] outcomes[i]),
    ensures
        policy.spec_run(0, outcomes) == Verdict::Abort(
            Fatal::ExhaustedRetries { attempts: policy.max_attempts },
        ),
{
    lemma_exhausted_from(policy, 0, outcomes);
}

/// After `failures` failed attempts, a unit that fails on all the attempts
/// it has left ends the run.
proof fn lemma_exhausted_from(policy: RetryPolicy, failures: u32, outcomes: Seq<Attempt>)
    requires
        outcomes.len() >= 1,
        failures + outcomes.len() == policy.max_attempts,
        forall|i: int| 0 <= i < outcomes.len() ==> fails_transiently(#[trigger] outcomes[i]),
    ensures
        policy.spec_run(failures, outcomes) == Verdict::Abort(
            Fatal::ExhaustedRetries { attempts: policy.max_attempts },
        ),
    decreases outcomes.len(),
{
    assert(fails_transiently(outcomes[0]));
    if outcomes.len() > 1 {
        let rest = outcomes.drop_first();
        assert forall|i: int| 0 <= i < rest.len() implies fails_transiently(#[trigger] rest[i]) by {
            assert(rest[i] == outcomes[i + 1]);
        }
        lemma_exhausted_from(policy, (failures + 1) as u32, rest);
    }
}

/// A unit is passed over as empty only on the source's own word that there
/// is no data, and delivered only after an attempt that fetched: whatever
/// the outcomes of its attempts, no failure is dropped in silence.
pub proof fn lemma_no_silent_drop(policy: RetryPolicy, failures: u32, outcomes: Seq<Attempt>)
    ensures
        policy.spec_run(failures, outcomes) is Empty ==> exists|i: int|
            0 <= i < outcomes.len() && #[trigger] outcomes[i] == Attempt::Failed(
                FetchError::NoData,
            ),
        policy.spec_run(failures, outcomes) is Deliver ==> exists|i: int|
            0 <= i < outcomes.len() && #[trigger] outcomes[i] == Attempt::Fetched,
    decreases outcomes.len(),
{
    if outcomes.len() > 0 {
        let verdict = policy.spec_decide(failures, outcomes[0]);
        if verdict is Retry && outcomes.len() > 1 {
            let rest = outcomes.drop_first();
            lemma_no_silent_drop(policy, (failures + 1) as u32, rest);
            if policy.spec_run(failures, outcomes) is Empty {
                let i = choose|i: int|
                    0 <= i < rest.len() && #[trigger] rest[i] == Attempt::Failed(
                        FetchError::NoData,
                    );
                assert(outcomes[i + 1] == rest[i]);
            }
            if policy.spec_run(failures, outcomes) is Deliver {
                let i = choose|i: int| 0 <= i < rest.len() && #[trigger] rest[i] == Attempt::Fetched;
                assert(outcomes[i + 1] == rest[i]);
            }
        } else {
            if verdict is Empty {
                assert(outcomes[0] == Attempt::Failed(FetchError::NoData));
            }
            if verdict is Deliver {
                assert(outcomes[0] == Attempt::Fetched);
            }
        }
    }
}

} // verus!

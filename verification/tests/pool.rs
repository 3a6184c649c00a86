use market_ingest::error::Fatal;
use market_ingest::pool::{Dispatch, WorkerPool};
use market_ingest::retry::Verdict;

#[test]
fn a_pool_needs_a_worker() {
    assert_eq!(WorkerPool::new(0, 5), None);
    assert_eq!(
        WorkerPool::new(100, 5),
        Some(WorkerPool {
            workers: 100,
            units: 5,
            next: 0,
            in_flight: 0,
            completed: 0,
            fatal: None
        })
    );
}

#[test]
fn no_more_units_are_in_flight_than_there_are_workers() {
    let mut pool = WorkerPool::new(2, 5).unwrap();
    assert_eq!(pool.dispatch(), Dispatch::Run { unit: 0 });
    assert_eq!(pool.dispatch(), Dispatch::Run { unit: 1 });
    assert_eq!(pool.dispatch(), Dispatch::Wait);
    assert_eq!(pool.in_flight, 2);
    assert_eq!(pool.report(Verdict::Deliver), 1);
    assert_eq!(pool.dispatch(), Dispatch::Run { unit: 2 });
    assert_eq!(pool.dispatch(), Dispatch::Wait);
    assert_eq!(pool.in_flight, 2);
}

#[test]
fn the_barrier_comes_when_every_unit_has_completed() {
    let mut pool = WorkerPool::new(8, 3).unwrap();
    assert!(!pool.barrier_reached());
    assert_eq!(pool.dispatch(), Dispatch::Run { unit: 0 });
    assert_eq!(pool.dispatch(), Dispatch::Run { unit: 1 });
    assert_eq!(pool.dispatch(), Dispatch::Run { unit: 2 });
    assert_eq!(pool.dispatch(), Dispatch::Wait);
    assert_eq!(pool.report(Verdict::Deliver), 1);
    assert_eq!(pool.report(Verdict::Empty), 2);
    assert!(!pool.barrier_reached());
    assert_eq!(pool.dispatch(), Dispatch::Wait);
    assert_eq!(pool.report(Verdict::Deliver), 3);
    assert!(pool.barrier_reached());
    assert_eq!(pool.dispatch(), Dispatch::Barrier);
    assert_eq!(pool.dispatch(), Dispatch::Barrier);
}

#[test]
fn a_batch_without_units_is_at_its_barrier() {
    let mut pool = WorkerPool::new(1, 0).unwrap();
    assert!(pool.barrier_reached());
    assert_eq!(pool.dispatch(), Dispatch::Barrier);
}

#[test]
fn a_retry_keeps_the_unit_in_flight() {
    let mut pool = WorkerPool::new(1, 1).unwrap();
    assert_eq!(pool.dispatch(), Dispatch::Run { unit: 0 });
    assert_eq!(pool.report(Verdict::Retry { attempt: 2, sleep_secs: 1 }), 0);
    assert_eq!(pool.in_flight, 1);
    assert_eq!(pool.dispatch(), Dispatch::Wait);
}

#[test]
fn a_report_without_a_unit_in_flight_changes_nothing() {
    let mut pool = WorkerPool::new(1, 1).unwrap();
    let before = pool;
    assert_eq!(pool.report(Verdict::Deliver), 0);
    assert_eq!(pool.report(Verdict::Abort(Fatal::ExhaustedRetries { attempts: 1 })), 0);
    assert_eq!(pool, before);
}

#[test]
fn a_fatal_failure_stops_the_batch() {
    let mut pool = WorkerPool::new(2, 5).unwrap();
    assert_eq!(pool.dispatch(), Dispatch::Run { unit: 0 });
    assert_eq!(pool.dispatch(), Dispatch::Run { unit: 1 });
    let failure = Fatal::ExhaustedRetries { attempts: 10 };
    pool.report(Verdict::Abort(failure));
    // one unit is still in flight: nothing new is handed out
    assert_eq!(pool.dispatch(), Dispatch::Wait);
    assert_eq!(pool.next, 2);
    pool.report(Verdict::Deliver);
    assert_eq!(pool.dispatch(), Dispatch::Halt(failure));
    assert!(!pool.barrier_reached());
    assert_eq!(pool.completed, 1);
}

#[test]
fn the_first_fatal_failure_is_the_one_reported() {
    let mut pool = WorkerPool::new(2, 2).unwrap();
    pool.dispatch();
    pool.dispatch();
    let first = Fatal::ExhaustedRetries { attempts: 50 };
    let second = Fatal::WriteVerificationMismatch { prior: 0, written: 1, reported: 2 };
    pool.report(Verdict::Abort(first));
    pool.report(Verdict::Abort(second));
    assert_eq!(pool.fatal, Some(first));
    assert_eq!(pool.dispatch(), Dispatch::Halt(first));
}

#[test]
fn a_pool_is_valid_when_its_counts_go_together() {
    let mut pool = WorkerPool::new(2, 3).unwrap();
    assert!(pool.is_valid());
    pool.dispatch();
    pool.dispatch();
    assert!(pool.is_valid());
    pool.report(Verdict::Deliver);
    assert!(pool.is_valid());
    pool.report(Verdict::Abort(Fatal::ExhaustedRetries { attempts: 10 }));
    assert!(pool.is_valid());
    assert!(!WorkerPool { workers: 0, ..pool }.is_valid());
    assert!(!WorkerPool { in_flight: 3, ..pool }.is_valid());
    assert!(!WorkerPool { next: 4, ..pool }.is_valid());
    assert!(!WorkerPool { completed: 3, ..pool }.is_valid());
    // without a failure every unit handed out is in flight or completed
    assert!(!WorkerPool { fatal: None, ..pool }.is_valid());
    assert!(WorkerPool { fatal: None, in_flight: 1, ..pool }.is_valid());
}

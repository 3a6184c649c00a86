use market_ingest::limiter::{Permit, TokenBucket, NANOS_PER_SECOND};

const MILLI: u64 = 1_000_000;

#[test]
fn a_new_bucket_is_full() {
    let bucket = TokenBucket::new(5, 2, 10, 100).unwrap();
    assert_eq!(
        bucket,
        TokenBucket { capacity: 5, quantum: 2, interval: 10, available: 5, refilled_at: 100 }
    );
}

#[test]
fn a_bucket_needs_room_tokens_and_an_interval() {
    assert_eq!(TokenBucket::new(0, 1, 1, 0), None);
    assert_eq!(TokenBucket::new(1, 0, 1, 0), None);
    assert_eq!(TokenBucket::new(1, 1, 0, 0), None);
    assert!(TokenBucket::new(1, 1, 1, 0).is_some());
}

#[test]
fn a_hundred_a_second_is_one_token_every_ten_milliseconds() {
    assert_eq!(NANOS_PER_SECOND, 1_000_000_000);
    let bucket = TokenBucket::per_second(100, 10, 7).unwrap();
    assert_eq!(
        bucket,
        TokenBucket {
            capacity: 10,
            quantum: 1,
            interval: 10_000_000,
            available: 10,
            refilled_at: 7
        }
    );
    assert_eq!(TokenBucket::per_second(3, 1, 0).unwrap().interval, 333_333_334);
    assert_eq!(TokenBucket::per_second(7, 1, 0).unwrap().interval, 142_857_143);
    assert_eq!(TokenBucket::per_second(1, 1, 0).unwrap().interval, 1_000_000_000);
    assert_eq!(TokenBucket::per_second(1_000_000_000, 1, 0).unwrap().interval, 1);
}

#[test]
fn a_rate_must_be_within_reach() {
    assert_eq!(TokenBucket::per_second(0, 10, 0), None);
    assert_eq!(TokenBucket::per_second(1_000_000_001, 10, 0), None);
    assert_eq!(TokenBucket::per_second(100, 0, 0), None);
}

#[test]
fn a_bucket_grants_its_burst_and_then_holds_back() {
    let mut bucket = TokenBucket::new(3, 1, 10 * MILLI, 0).unwrap();
    assert_eq!(bucket.acquire(0), Permit::Granted);
    assert_eq!(bucket.acquire(0), Permit::Granted);
    assert_eq!(bucket.acquire(MILLI), Permit::Granted);
    assert_eq!(bucket.available, 0);
    assert_eq!(bucket.acquire(MILLI), Permit::Wait { nanos: 9 * MILLI });
    assert_eq!(bucket.acquire(4 * MILLI), Permit::Wait { nanos: 6 * MILLI });
    assert_eq!(bucket.refilled_at, 0);
}

#[test]
fn a_wait_ends_with_a_permit() {
    let mut bucket = TokenBucket::new(1, 1, 10 * MILLI, 0).unwrap();
    assert_eq!(bucket.acquire(3 * MILLI), Permit::Granted);
    let now = 14 * MILLI;
    assert_eq!(bucket.acquire(now), Permit::Granted);
    assert_eq!(bucket.refilled_at, 10 * MILLI);
    match bucket.acquire(now) {
        Permit::Wait { nanos } => {
            assert_eq!(nanos, 6 * MILLI);
            assert_eq!(bucket.acquire(now + nanos), Permit::Granted);
            assert_eq!(bucket.refilled_at, 20 * MILLI);
        }
        Permit::Granted => panic!("the bucket was empty"),
    }
}

#[test]
fn minting_keeps_the_part_of_an_interval_that_has_passed() {
    let mut bucket =
        TokenBucket { capacity: 10, quantum: 2, interval: 10, available: 0, refilled_at: 100 };
    assert_eq!(bucket.acquire(135), Permit::Granted);
    // three whole intervals mint six tokens, of which one is taken
    assert_eq!(bucket.available, 5);
    assert_eq!(bucket.refilled_at, 130);
}

#[test]
fn a_bucket_never_holds_more_than_its_capacity() {
    let mut bucket =
        TokenBucket { capacity: 4, quantum: 3, interval: 10, available: 1, refilled_at: 0 };
    assert_eq!(bucket.acquire(1_000), Permit::Granted);
    assert_eq!(bucket.available, 3);
    assert_eq!(bucket.refilled_at, 1_000);
    let mut wide = TokenBucket {
        capacity: u64::MAX,
        quantum: u64::MAX,
        interval: 1,
        available: u64::MAX,
        refilled_at: 0,
    };
    assert_eq!(wide.acquire(u64::MAX), Permit::Granted);
    assert_eq!(wide.available, u64::MAX - 1);
    assert_eq!(wide.refilled_at, u64::MAX);
}

#[test]
fn a_clock_that_runs_backwards_mints_nothing() {
    let mut bucket =
        TokenBucket { capacity: 4, quantum: 1, interval: 10, available: 0, refilled_at: 500 };
    assert_eq!(bucket.acquire(400), Permit::Wait { nanos: 110 });
    assert_eq!(bucket.refilled_at, 500);
    let mut late = TokenBucket {
        capacity: 4,
        quantum: 1,
        interval: u64::MAX,
        available: 0,
        refilled_at: u64::MAX,
    };
    assert_eq!(late.acquire(0), Permit::Wait { nanos: u64::MAX });
}

#[test]
fn permits_stay_within_rate_times_span_and_burst() {
    // A ceiling of 100 a second and a burst of 10, asked every millisecond
    // of one second: 10 permits at once, then one every ten milliseconds.
    let mut bucket = TokenBucket::per_second(100, 10, 0).unwrap();
    let mut granted: u64 = 0;
    for tick in 0..=1000u64 {
        if bucket.acquire(tick * MILLI) == Permit::Granted {
            granted += 1;
        }
    }
    assert_eq!(granted, 110);
    assert!(granted <= 100 * 1 + 10);
}

#[test]
fn permits_stay_within_the_bound_over_many_seconds() {
    let mut bucket = TokenBucket::per_second(100, 25, 0).unwrap();
    let seconds: u64 = 7;
    let mut granted: u64 = 0;
    let mut now: u64 = 0;
    while now <= seconds * NANOS_PER_SECOND {
        if bucket.acquire(now) == Permit::Granted {
            granted += 1;
        }
        now += 137_000;
    }
    assert!(granted <= 100 * seconds + 25);
    assert_eq!(granted, 724);
}

#[test]
fn a_bucket_is_valid_when_its_numbers_go_together() {
    let good = TokenBucket { capacity: 4, quantum: 1, interval: 10, available: 4, refilled_at: 0 };
    assert!(good.is_valid());
    assert!(!TokenBucket { available: 5, ..good }.is_valid());
    assert!(!TokenBucket { capacity: 0, available: 0, ..good }.is_valid());
    assert!(!TokenBucket { quantum: 0, ..good }.is_valid());
    assert!(!TokenBucket { interval: 0, ..good }.is_valid());
    assert!(TokenBucket { available: 0, ..good }.is_valid());
}

#[test]
fn a_rate_that_does_not_divide_a_second_is_never_exceeded() {
    let mut bucket = TokenBucket::per_second(3, 1, 0).unwrap();
    let seconds: u64 = 1_000;
    let mut granted: u64 = 0;
    let mut now: u64 = 0;
    while now <= seconds * NANOS_PER_SECOND {
        if bucket.acquire(now) == Permit::Granted {
            granted += 1;
        }
        now += 50_000_000;
    }
    assert!(granted <= 3 * seconds + 1);
    assert_eq!(granted, 3_000);
}

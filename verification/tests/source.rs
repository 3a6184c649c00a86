use market_ingest::calendar::Date;
use market_ingest::record::Record;
use market_ingest::retry::FetchError;
use market_ingest::dedup::{PageStep, Paginator};
use market_ingest::source::{
    bar_window, check_status, identify_by_time, next_bar_day, restamp, shape_daily_bars,
    shape_minute_bars, to_eastern_nanos, BAR_PAGE_LIMIT, EASTERN_OFFSET_MILLIS, NANOS_PER_MILLI,
    STATUS_OK,
};

fn bar(symbol: &str, ts: i64) -> Record<u8> {
    Record { ts, symbol: String::from(symbol), id: 3, seq_id: 4, payload: 5 }
}

fn stamps(rows: &[Record<u8>]) -> Vec<i64> {
    rows.iter().map(|r| r.ts).collect()
}

#[test]
fn only_success_passes_the_status_check() {
    assert_eq!(STATUS_OK, 200);
    assert_eq!(check_status(200), Ok(()));
    assert_eq!(check_status(404), Err(FetchError::BadStatus { status: 404 }));
    assert_eq!(check_status(500), Err(FetchError::BadStatus { status: 500 }));
    assert_eq!(check_status(0), Err(FetchError::BadStatus { status: 0 }));
}

#[test]
fn source_time_becomes_exchange_nanoseconds() {
    assert_eq!(EASTERN_OFFSET_MILLIS, 5 * 60 * 60 * 1_000);
    assert_eq!(NANOS_PER_MILLI, 1_000_000);
    assert_eq!(to_eastern_nanos(18_000_000), Some(0));
    assert_eq!(to_eastern_nanos(18_000_001), Some(1_000_000));
    assert_eq!(to_eastern_nanos(0), Some(-18_000_000_000_000));
    assert_eq!(to_eastern_nanos(1_604_570_400_000), Some(1_604_552_400_000_000_000));
}

#[test]
fn source_time_outside_sixty_four_bits_has_no_nanoseconds() {
    assert_eq!(to_eastern_nanos(i64::MAX), None);
    assert_eq!(to_eastern_nanos(i64::MIN), None);
    assert_eq!(to_eastern_nanos(9_223_390_036_854), Some(9_223_372_036_854_000_000));
    assert_eq!(to_eastern_nanos(9_223_390_036_855), None);
    assert_eq!(to_eastern_nanos(-9_223_354_036_854), Some(-9_223_372_036_854_000_000));
    assert_eq!(to_eastern_nanos(-9_223_354_036_855), None);
}

#[test]
fn restamping_changes_the_timestamp_and_nothing_else() {
    let rows = vec![bar("AAPL", 1), bar("MSFT", 2)];
    let out = restamp(rows, 77);
    assert_eq!(out, vec![bar("AAPL", 77), bar("MSFT", 77)]);
    assert_eq!(restamp(Vec::<Record<u8>>::new(), 77), vec![]);
}

#[test]
fn daily_bars_carry_the_midnight_of_their_day() {
    let midnight = Date { epoch_day: 12418 }.midnight_nanos().unwrap();
    let out = shape_daily_bars(vec![bar("AAPL", 5), bar("MSFT", 6)], midnight).unwrap();
    assert_eq!(stamps(&out), vec![1_072_915_200_000_000_000, 1_072_915_200_000_000_000]);
    assert_eq!(out[1].symbol, "MSFT");
}

#[test]
fn a_day_without_bars_has_no_data() {
    assert_eq!(shape_daily_bars(Vec::<Record<u8>>::new(), 5), Err(FetchError::NoData));
}

#[test]
fn the_window_of_a_request_runs_from_midnight_to_midnight() {
    let from = Date { epoch_day: 18571 };
    let to = Date { epoch_day: 18572 };
    assert_eq!(
        bar_window(from, to),
        Some((1_604_534_400_000_000_000, 1_604_707_200_000_000_000))
    );
    assert_eq!(bar_window(Date { epoch_day: 0 }, Date { epoch_day: 106_750 }).unwrap().0, 0);
    assert_eq!(bar_window(Date { epoch_day: 0 }, Date { epoch_day: 106_751 }), None);
    assert_eq!(bar_window(Date { epoch_day: -106_752 }, Date { epoch_day: 0 }), None);
    assert_eq!(bar_window(Date { epoch_day: i32::MIN }, Date { epoch_day: i32::MAX }), None);
}

#[test]
fn minute_bars_within_the_window_come_back_in_nanoseconds() {
    // 2020-11-05 09:30 and 16:00 exchange time, as the source stamps them
    let rows = vec![bar("AAPL", 1_604_586_600_000), bar("AAPL", 1_604_610_000_000)];
    let (low, high) =
        bar_window(Date { epoch_day: 18571 }, Date { epoch_day: 18571 }).unwrap();
    let out = shape_minute_bars(rows, low, high).unwrap();
    assert_eq!(stamps(&out), vec![1_604_568_600_000_000_000, 1_604_592_000_000_000_000]);
    assert_eq!(out[0], bar("AAPL", 1_604_568_600_000_000_000));
}

#[test]
fn minute_bars_may_touch_both_ends_of_the_window() {
    let rows = vec![bar("A", 18_000_010), bar("A", 18_000_001), bar("A", 18_000_005)];
    let out = shape_minute_bars(rows, 1_000_000, 10_000_000).unwrap();
    assert_eq!(stamps(&out), vec![10_000_000, 1_000_000, 5_000_000]);
}

#[test]
fn no_minute_bars_mean_no_data() {
    assert_eq!(shape_minute_bars(Vec::<Record<u8>>::new(), 0, 10), Err(FetchError::NoData));
}

#[test]
fn a_minute_bar_before_the_window_fails_the_attempt() {
    let rows = vec![bar("A", 18_000_005), bar("A", 18_000_000), bar("A", 18_000_003)];
    assert_eq!(
        shape_minute_bars(rows, 1, 10_000_000),
        Err(FetchError::OutOfRange { ts: 18_000_000 })
    );
}

#[test]
fn a_minute_bar_after_the_window_fails_the_attempt() {
    let rows = vec![bar("A", 18_000_005), bar("A", 18_000_011), bar("A", 18_000_003)];
    assert_eq!(
        shape_minute_bars(rows, 0, 10_000_000),
        Err(FetchError::OutOfRange { ts: 18_000_011 })
    );
}

#[test]
fn the_earliest_bar_is_named_before_the_latest() {
    let rows = vec![bar("A", 18_000_050), bar("A", 17_000_000)];
    assert_eq!(
        shape_minute_bars(rows, 0, 10_000_000),
        Err(FetchError::OutOfRange { ts: 17_000_000 })
    );
    let wild = vec![bar("A", i64::MAX), bar("A", 18_000_001)];
    assert_eq!(
        shape_minute_bars(wild, 0, i64::MAX),
        Err(FetchError::OutOfRange { ts: i64::MAX })
    );
    let low = vec![bar("A", i64::MIN)];
    assert_eq!(
        shape_minute_bars(low, i64::MIN, i64::MAX),
        Err(FetchError::OutOfRange { ts: i64::MIN })
    );
}

#[test]
fn a_bar_is_identified_by_its_time() {
    assert_eq!(BAR_PAGE_LIMIT, 50_000);
    let out = identify_by_time(vec![bar("A", i64::MIN), bar("A", -1), bar("A", 0), bar("A", i64::MAX)]);
    let ids: Vec<u64> = out.iter().map(|r| r.id).collect();
    assert_eq!(ids, vec![0, 9_223_372_036_854_775_807, 9_223_372_036_854_775_808, u64::MAX]);
    assert_eq!(stamps(&out), vec![i64::MIN, -1, 0, i64::MAX]);
    assert_eq!(out[0].symbol, "A");
    assert_eq!(out[0].seq_id, 4);
    assert_eq!(out[0].payload, 5);
}

#[test]
fn the_next_page_of_bars_is_asked_from_the_day_of_the_cursor() {
    assert_eq!(next_bar_day(PageStep::Done), None);
    assert_eq!(
        next_bar_day(PageStep::Next { cursor: 1_604_568_600_000_000_000 }),
        Some(Date { epoch_day: 18571 })
    );
    assert_eq!(next_bar_day(PageStep::Next { cursor: -1 }), Some(Date { epoch_day: -1 }));
}

#[test]
fn minute_bars_of_more_than_a_page_are_merged_once_each() {
    // three days of five bars each, asked for by the day, seven to a page
    let day: i64 = 86_400_000_000_000;
    let all: Vec<Record<u8>> =
        (0..15).map(|n| bar("A", (n / 5) * day + (n % 5) * 60_000_000_000)).collect();
    let all = identify_by_time(all);
    let mut pages: Paginator<u8> = Paginator::new(7, 0);
    let mut first_day = Date { epoch_day: 0 };
    let mut requests = 0;
    loop {
        let start = first_day.midnight_nanos().unwrap();
        let page: Vec<Record<u8>> =
            all.iter().filter(|r| r.ts >= start).take(7).cloned().collect();
        requests += 1;
        match next_bar_day(pages.absorb(page)) {
            Some(day) => first_day = day,
            None => break,
        }
        assert!(requests < 100);
    }
    assert_eq!(requests, 3);
    assert_eq!(pages.into_merged(), all);
}

use market_ingest::dedup::{contains_id, PageStep, Paginator};
use market_ingest::record::Record;
use market_ingest::retry::FetchError;

fn trade(id: u64, ts: i64) -> Record<u32> {
    Record { ts, symbol: String::from("AAPL"), id, seq_id: id, payload: 7 }
}

fn ids(records: &[Record<u32>]) -> Vec<u64> {
    records.iter().map(|r| r.id).collect()
}

fn sorted_ids(records: &[Record<u32>]) -> Vec<u64> {
    let mut out = ids(records);
    out.sort_unstable();
    out
}

#[test]
fn a_short_first_page_is_the_whole_unit() {
    let mut pages: Paginator<u32> = Paginator::new(5, 0);
    assert!(!pages.done);
    let step = pages.absorb(vec![trade(1, 10), trade(2, 10), trade(3, 11)]);
    assert_eq!(step, PageStep::Done);
    assert!(pages.done);
    assert_eq!(ids(&pages.into_merged()), vec![1, 2, 3]);
}

#[test]
fn an_empty_page_ends_the_unit() {
    let mut pages: Paginator<u32> = Paginator::new(5, 0);
    assert_eq!(pages.absorb(Vec::new()), PageStep::Done);
    assert!(pages.done);
    assert_eq!(pages.into_merged(), Vec::new());
    let mut none: Paginator<u32> = Paginator::new(0, 0);
    assert_eq!(none.absorb(Vec::new()), PageStep::Done);
}

#[test]
fn a_full_page_asks_for_the_next_from_its_last_timestamp() {
    let mut pages: Paginator<u32> = Paginator::new(3, 0);
    let step = pages.absorb(vec![trade(1, 10), trade(2, 20), trade(3, 20)]);
    assert_eq!(step, PageStep::Next { cursor: 20 });
    assert!(!pages.done);
    assert_eq!(pages.boundary, vec![2, 3]);
    assert_eq!(ids(&pages.merged), vec![1, 2, 3]);
}

#[test]
fn the_margin_moves_the_cursor() {
    let mut ahead: Paginator<u32> = Paginator::new(2, 18_000_000_000_000);
    assert_eq!(
        ahead.absorb(vec![trade(1, 10), trade(2, 20)]),
        PageStep::Next { cursor: 18_000_000_000_020 }
    );
    let mut back: Paginator<u32> = Paginator::new(2, -5);
    assert_eq!(back.absorb(vec![trade(1, 10), trade(2, 20)]), PageStep::Next { cursor: 15 });
}

#[test]
fn the_cursor_stays_within_sixty_four_bits() {
    let mut high: Paginator<u32> = Paginator::new(1, 10);
    assert_eq!(high.absorb(vec![trade(1, i64::MAX - 3)]), PageStep::Next { cursor: i64::MAX });
    let mut low: Paginator<u32> = Paginator::new(1, -10);
    assert_eq!(low.absorb(vec![trade(1, i64::MIN + 3)]), PageStep::Next { cursor: i64::MIN });
}

#[test]
fn records_seen_at_the_boundary_are_dropped_from_the_next_page() {
    let mut pages: Paginator<u32> = Paginator::new(3, 0);
    pages.absorb(vec![trade(1, 10), trade(2, 20), trade(3, 20)]);
    let step = pages.absorb(vec![trade(3, 20), trade(2, 20), trade(4, 20), trade(5, 30)]);
    assert_eq!(step, PageStep::Next { cursor: 30 });
    assert_eq!(ids(&pages.merged), vec![1, 2, 3, 4, 5]);
    assert_eq!(pages.boundary, vec![5]);
    assert_eq!(pages.absorb(vec![trade(5, 30), trade(6, 31)]), PageStep::Done);
    assert_eq!(ids(&pages.into_merged()), vec![1, 2, 3, 4, 5, 6]);
}

#[test]
fn a_page_of_boundary_records_only_widens_the_boundary() {
    let mut pages: Paginator<u32> = Paginator::new(2, 0);
    assert_eq!(pages.absorb(vec![trade(1, 20), trade(2, 20)]), PageStep::Next { cursor: 20 });
    assert_eq!(pages.absorb(vec![trade(2, 20), trade(3, 20)]), PageStep::Next { cursor: 20 });
    assert_eq!(ids(&pages.merged), vec![1, 2, 3]);
    assert_eq!(pages.boundary, vec![1, 2, 3]);
}

fn source() -> Vec<Record<u32>> {
    // three records share the timestamp 40
    vec![
        trade(1, 10),
        trade(2, 20),
        trade(3, 30),
        trade(4, 40),
        trade(5, 40),
        trade(6, 40),
        trade(7, 50),
    ]
}

fn from_ts(cursor: i64) -> Vec<Record<u32>> {
    source().into_iter().filter(|r| r.ts >= cursor).collect()
}

#[test]
fn ties_split_one_and_two_yield_every_record_once() {
    let mut pages: Paginator<u32> = Paginator::new(4, 0);
    let first: Vec<Record<u32>> = source().into_iter().take(4).collect();
    assert_eq!(pages.absorb(first), PageStep::Next { cursor: 40 });
    let second: Vec<Record<u32>> = from_ts(40).into_iter().take(4).collect();
    assert_eq!(ids(&second), vec![4, 5, 6, 7]);
    assert_eq!(pages.absorb(second), PageStep::Next { cursor: 50 });
    assert_eq!(pages.absorb(from_ts(50)), PageStep::Done);
    let merged = pages.into_merged();
    assert_eq!(ids(&merged), vec![1, 2, 3, 4, 5, 6, 7]);
    assert_eq!(merged, source());
}

#[test]
fn ties_split_two_and_one_yield_every_record_once() {
    let mut pages: Paginator<u32> = Paginator::new(5, 0);
    let first: Vec<Record<u32>> = source().into_iter().take(5).collect();
    assert_eq!(pages.absorb(first), PageStep::Next { cursor: 40 });
    assert_eq!(pages.boundary, vec![4, 5]);
    assert_eq!(pages.absorb(from_ts(40)), PageStep::Done);
    let merged = pages.into_merged();
    assert_eq!(ids(&merged), vec![1, 2, 3, 4, 5, 6, 7]);
    assert_eq!(merged, source());
}

#[test]
fn which_tie_a_page_holds_does_not_change_what_is_merged() {
    // The source may answer a request with any of the tied records last.
    let choices: [[u64; 2]; 3] = [[4, 5], [5, 6], [6, 4]];
    for held in choices {
        let mut pages: Paginator<u32> = Paginator::new(5, 0);
        let mut first = vec![trade(1, 10), trade(2, 20), trade(3, 30)];
        first.push(trade(held[0], 40));
        first.push(trade(held[1], 40));
        assert_eq!(pages.absorb(first), PageStep::Next { cursor: 40 });
        let second = vec![trade(6, 40), trade(5, 40), trade(4, 40), trade(7, 50)];
        assert_eq!(pages.absorb(second), PageStep::Done);
        let merged = pages.into_merged();
        assert_eq!(merged.len(), 7);
        assert_eq!(sorted_ids(&merged), vec![1, 2, 3, 4, 5, 6, 7]);
    }
}

#[test]
fn a_page_limit_of_fifty_thousand_with_three_ties_at_the_boundary() {
    let limit: usize = 50_000;
    for early in [49_999u64, 49_998u64] {
        // `early` records with a timestamp of their own, then three that
        // share one: the first page holds one or two of the three.
        let mut all: Vec<Record<u32>> = Vec::new();
        for n in 0..early {
            all.push(trade(n, n as i64));
        }
        let tie_ts: i64 = 1_000_000;
        for n in 0..3u64 {
            all.push(trade(early + n, tie_ts));
        }
        let mut pages: Paginator<u32> = Paginator::new(limit, 0);
        let first: Vec<Record<u32>> = all.iter().take(limit).cloned().collect();
        assert_eq!(first.len(), limit);
        assert_eq!(pages.absorb(first), PageStep::Next { cursor: tie_ts });
        let second: Vec<Record<u32>> = all.iter().filter(|r| r.ts >= tie_ts).cloned().collect();
        assert_eq!(second.len(), 3);
        assert_eq!(pages.absorb(second), PageStep::Done);
        let merged = pages.into_merged();
        assert_eq!(merged.len() as u64, early + 3);
        assert_eq!(merged, all);
        let ties: Vec<u64> = merged.iter().filter(|r| r.ts == tie_ts).map(|r| r.id).collect();
        assert_eq!(ties, vec![early, early + 1, early + 2]);
    }
}

#[test]
fn contains_id_finds_what_is_there() {
    assert!(contains_id(&vec![3, 1, 2], 1));
    assert!(!contains_id(&vec![3, 1, 2], 4));
    assert!(!contains_id(&Vec::new(), 0));
}

#[test]
fn no_data_on_the_first_page_fails_the_attempt() {
    let mut pages: Paginator<u32> = Paginator::new(3, 0);
    let before = pages.clone();
    assert_eq!(pages.absorb_outcome(Err(FetchError::NoData)), Err(FetchError::NoData));
    assert_eq!(pages, before);
    assert!(!pages.started);
}

#[test]
fn no_data_after_a_page_completes_the_unit() {
    let mut pages: Paginator<u32> = Paginator::new(2, 0);
    assert_eq!(
        pages.absorb_outcome(Ok(vec![trade(1, 10), trade(2, 20)])),
        Ok(PageStep::Next { cursor: 20 })
    );
    assert!(pages.started);
    assert_eq!(pages.absorb_outcome(Err(FetchError::NoData)), Ok(PageStep::Done));
    assert!(pages.done);
    assert_eq!(ids(&pages.into_merged()), vec![1, 2]);
}

#[test]
fn a_failed_page_leaves_the_merge_as_it_is() {
    let mut pages: Paginator<u32> = Paginator::new(2, 0);
    pages.absorb(vec![trade(1, 10), trade(2, 20)]);
    let before = pages.clone();
    assert_eq!(pages.absorb_outcome(Err(FetchError::Transport)), Err(FetchError::Transport));
    assert_eq!(
        pages.absorb_outcome(Err(FetchError::BadStatus { status: 500 })),
        Err(FetchError::BadStatus { status: 500 })
    );
    assert_eq!(pages, before);
    assert_eq!(
        pages.absorb_outcome(Ok(vec![trade(2, 20), trade(3, 30)])),
        Ok(PageStep::Next { cursor: 30 })
    );
    assert_eq!(pages.absorb_outcome(Ok(vec![trade(3, 30)])), Ok(PageStep::Done));
    assert_eq!(ids(&pages.into_merged()), vec![1, 2, 3]);
}

#[test]
fn a_margin_that_overlaps_doubles_nothing() {
    // each page starts one tick before the last record of the page before
    let all: Vec<Record<u32>> = (1..=5).map(|n| trade(n, n as i64)).collect();
    let from = |cursor: i64| -> Vec<Record<u32>> {
        all.iter().filter(|r| r.ts >= cursor).take(3).cloned().collect()
    };
    let mut pages: Paginator<u32> = Paginator::new(3, -1);
    assert_eq!(pages.absorb(from(i64::MIN)), PageStep::Next { cursor: 2 });
    assert_eq!(pages.cursor, Some(2));
    assert_eq!(pages.boundary, vec![2, 3]);
    assert_eq!(pages.absorb(from(2)), PageStep::Next { cursor: 3 });
    assert_eq!(ids(&pages.merged), vec![1, 2, 3, 4]);
    assert_eq!(pages.boundary, vec![3, 4]);
    assert_eq!(pages.absorb(from(3)), PageStep::Next { cursor: 4 });
    assert_eq!(pages.absorb(from(4)), PageStep::Done);
    assert_eq!(pages.into_merged(), all);
}

#[test]
fn a_margin_of_one_tick_back_with_a_page_of_two() {
    let mut pages: Paginator<u32> = Paginator::new(2, -1);
    assert_eq!(pages.absorb(vec![trade(1, 1), trade(2, 2)]), PageStep::Next { cursor: 1 });
    assert_eq!(pages.boundary, vec![1, 2]);
    assert_eq!(pages.absorb(vec![trade(1, 1), trade(2, 2)]), PageStep::Next { cursor: 1 });
    assert_eq!(ids(&pages.merged), vec![1, 2]);
}

#[test]
fn ties_split_either_way_with_an_overlapping_start() {
    // three trades share the timestamp 40; the next page starts at 35
    for first_len in [4usize, 5usize] {
        let mut pages: Paginator<u32> = Paginator::new(first_len, -5);
        let first: Vec<Record<u32>> = source().into_iter().take(first_len).collect();
        assert_eq!(pages.absorb(first), PageStep::Next { cursor: 35 });
        let second: Vec<Record<u32>> = from_ts(35).into_iter().take(first_len).collect();
        let mut step = pages.absorb(second);
        while let PageStep::Next { cursor } = step {
            let page: Vec<Record<u32>> = from_ts(cursor).into_iter().take(first_len).collect();
            step = pages.absorb(page);
        }
        let merged = pages.into_merged();
        assert_eq!(merged, source());
        let ties: Vec<u64> = merged.iter().filter(|r| r.ts == 40).map(|r| r.id).collect();
        assert_eq!(ties, vec![4, 5, 6]);
    }
}

#[test]
fn what_a_page_holds_from_before_its_start_is_dropped() {
    // pages are asked by the day of ten ticks, and start at the day's first tick
    let all: Vec<Record<u32>> = (0..25).map(|n| trade(n, n as i64)).collect();
    let from = |cursor: i64| -> Vec<Record<u32>> {
        let start = cursor - cursor % 10;
        all.iter().filter(|r| r.ts >= start).take(12).cloned().collect()
    };
    let mut pages: Paginator<u32> = Paginator::new(12, 0);
    assert_eq!(pages.absorb(from(0)), PageStep::Next { cursor: 11 });
    assert_eq!(pages.absorb(from(11)), PageStep::Next { cursor: 21 });
    assert_eq!(pages.merged.len(), 22);
    assert_eq!(pages.absorb(from(21)), PageStep::Done);
    assert_eq!(pages.into_merged(), all);
}

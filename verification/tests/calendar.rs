use market_ingest::calendar::{
    add_month, sub_month, Civil, Date, MarketDays, SessionCalendar, YearMonth, NANOS_PER_DAY,
};

fn day(n: i32) -> Date {
    Date { epoch_day: n }
}

#[test]
fn from_ymd_counts_days_from_the_epoch() {
    assert_eq!(Date::from_ymd(1970, 1, 1), Some(day(0)));
    assert_eq!(Date::from_ymd(1970, 1, 2), Some(day(1)));
    assert_eq!(Date::from_ymd(1969, 12, 31), Some(day(-1)));
    assert_eq!(Date::from_ymd(2004, 1, 1), Some(day(12418)));
    assert_eq!(Date::from_ymd(2005, 9, 10), Some(day(13036)));
}

#[test]
fn from_ymd_refuses_days_that_do_not_exist() {
    assert_eq!(Date::from_ymd(2015, 2, 29), None);
    assert_eq!(Date::from_ymd(2015, 0, 14), None);
    assert_eq!(Date::from_ymd(2015, 13, 1), None);
    assert_eq!(Date::from_ymd(2023, 4, 31), None);
    assert_eq!(Date::from_ymd(400000, 1, 1), None);
    assert_eq!(Date::from_ymd(-400000, 1, 1), None);
    assert!(Date::from_ymd(2016, 2, 29).is_some());
}

#[test]
fn civil_reads_year_month_and_day() {
    assert_eq!(day(0).civil(), Some(Civil { year: 1970, month: 1, day: 1 }));
    assert_eq!(day(13036).civil(), Some(Civil { year: 2005, month: 9, day: 10 }));
    assert_eq!(day(-1).civil(), Some(Civil { year: 1969, month: 12, day: 31 }));
    assert_eq!(day(i32::MAX).civil(), None);
    assert_eq!(day(i32::MIN).civil(), None);
}

#[test]
fn civil_reaches_every_day_of_a_nanosecond_timestamp() {
    assert_eq!(Date::of_nanos(i64::MAX).civil(), Some(Civil { year: 2262, month: 4, day: 11 }));
    assert_eq!(Date::of_nanos(i64::MIN).civil(), Some(Civil { year: 1677, month: 9, day: 21 }));
}

#[test]
fn civil_and_from_ymd_are_inverse_on_a_run_of_days() {
    for n in 12000..20000 {
        let c = day(n).civil().unwrap();
        assert_eq!(Date::from_ymd(c.year, c.month, c.day), Some(day(n)));
    }
}

#[test]
fn midnight_is_the_day_number_times_a_day_of_nanoseconds() {
    assert_eq!(NANOS_PER_DAY, 86_400_000_000_000);
    assert_eq!(day(0).midnight_nanos(), Some(0));
    assert_eq!(day(1).midnight_nanos(), Some(86_400_000_000_000));
    assert_eq!(day(-1).midnight_nanos(), Some(-86_400_000_000_000));
    assert_eq!(day(12418).midnight_nanos(), Some(1_072_915_200_000_000_000));
}

#[test]
fn midnight_is_refused_outside_sixty_four_bits() {
    assert_eq!(day(106_751).midnight_nanos(), Some(9_223_286_400_000_000_000));
    assert_eq!(day(106_752).midnight_nanos(), None);
    assert_eq!(day(-106_751).midnight_nanos(), Some(-9_223_286_400_000_000_000));
    assert_eq!(day(-106_752).midnight_nanos(), None);
    assert_eq!(day(i32::MAX).midnight_nanos(), None);
}

#[test]
fn of_nanos_places_a_timestamp_in_its_day() {
    assert_eq!(Date::of_nanos(0), day(0));
    assert_eq!(Date::of_nanos(86_399_999_999_999), day(0));
    assert_eq!(Date::of_nanos(86_400_000_000_000), day(1));
    assert_eq!(Date::of_nanos(1_072_915_200_000_000_000), day(12418));
    assert_eq!(Date::of_nanos(1_072_915_199_999_999_999), day(12417));
}

#[test]
fn of_nanos_rounds_down_before_the_epoch() {
    assert_eq!(Date::of_nanos(-1), day(-1));
    assert_eq!(Date::of_nanos(-86_400_000_000_000), day(-1));
    assert_eq!(Date::of_nanos(-86_400_000_000_001), day(-2));
    assert_eq!(Date::of_nanos(i64::MIN), day(-106_752));
    assert_eq!(Date::of_nanos(i64::MAX), day(106_751));
}

#[test]
fn succ_is_the_next_day() {
    assert_eq!(day(5).succ(), Some(day(6)));
    assert_eq!(day(-1).succ(), Some(day(0)));
    assert_eq!(day(i32::MAX).succ(), None);
}

#[test]
fn year_month_steps_over_the_turn_of_the_year() {
    let dec = YearMonth { year: 2020, month: 12 };
    let jan = YearMonth { year: 2021, month: 1 };
    assert_eq!(dec.next(), jan);
    assert_eq!(jan.prev(), dec);
    assert_eq!((YearMonth { year: 2020, month: 5 }).next(), YearMonth { year: 2020, month: 6 });
    assert_eq!((YearMonth { year: 2020, month: 5 }).prev(), YearMonth { year: 2020, month: 4 });
}

#[test]
fn year_month_of_a_date_and_its_first_day() {
    assert_eq!(YearMonth::of(&day(18321)), Some(YearMonth { year: 2020, month: 2 }));
    assert_eq!(YearMonth::of(&day(i32::MAX)), None);
    assert_eq!((YearMonth { year: 2020, month: 2 }).first_day(), Some(day(18293)));
    assert_eq!((YearMonth { year: 2020, month: 13 }).first_day(), None);
}

#[test]
fn add_month_keeps_the_day_of_month() {
    assert_eq!(add_month(&day(18611)), Some(day(18642)));
    assert_eq!(add_month(&day(18293)), Some(day(18322)));
}

#[test]
fn add_month_has_no_answer_where_the_day_is_missing() {
    // 2020-01-31 has no counterpart in February.
    assert_eq!(add_month(&day(18292)), None);
    assert_eq!(add_month(&day(i32::MAX)), None);
}

#[test]
fn sub_month_keeps_the_day_of_month() {
    assert_eq!(sub_month(&day(18276)), Some(day(18245)));
    assert_eq!(sub_month(&day(18322)), Some(day(18293)));
}

#[test]
fn sub_month_has_no_answer_where_the_day_is_missing() {
    // 2020-03-31 has no counterpart in February.
    assert_eq!(sub_month(&day(18352)), None);
}

fn week_of_march() -> SessionCalendar {
    // 2021-03-08 (a Monday) through 2021-03-15 (the Monday after).
    SessionCalendar {
        first: day(18694),
        open: vec![true, true, true, true, true, false, false, true],
    }
}

#[test]
fn calendar_knows_its_days_and_closes_all_others() {
    let cal = week_of_march();
    assert!(cal.is_open(&day(18694)));
    assert!(cal.is_open(&day(18698)));
    assert!(!cal.is_open(&day(18699)));
    assert!(!cal.is_open(&day(18700)));
    assert!(cal.is_open(&day(18701)));
    assert!(!cal.is_open(&day(18693)));
    assert!(!cal.is_open(&day(18702)));
    assert!(!cal.is_open(&day(i32::MIN)));
    assert!(!cal.is_open(&day(i32::MAX)));
}

#[test]
fn market_days_skip_the_weekend() {
    let cal = week_of_march();
    let mut walk = MarketDays { from: day(18698), to: day(18702) };
    assert_eq!(walk.next(&cal), Some(day(18698)));
    assert_eq!(walk.from, day(18699));
    assert_eq!(walk.next(&cal), Some(day(18701)));
    assert_eq!(walk.from, day(18702));
    assert_eq!(walk.next(&cal), None);
    assert_eq!(walk.to, day(18702));
}

#[test]
fn market_days_end_before_the_last_day() {
    let cal = week_of_march();
    let mut walk = MarketDays { from: day(18699), to: day(18701) };
    assert_eq!(walk.next(&cal), None);
    assert_eq!(walk.from, day(18701));
    let mut empty = MarketDays { from: day(18701), to: day(18694) };
    assert_eq!(empty.next(&cal), None);
    assert_eq!(empty.from, day(18701));
}

#[test]
fn market_days_collect_all_sessions_in_order() {
    let cal = week_of_march();
    let walk = MarketDays { from: day(18690), to: day(18702) };
    assert_eq!(
        walk.collect(&cal),
        vec![day(18694), day(18695), day(18696), day(18697), day(18698), day(18701)]
    );
    assert_eq!((MarketDays { from: day(18699), to: day(18701) }).collect(&cal), vec![]);
    assert_eq!((MarketDays { from: day(18701), to: day(18699) }).collect(&cal), vec![]);
}

#[test]
fn market_days_after_a_day_leave_that_day_out() {
    let cal = week_of_march();
    let walk = MarketDays::after(day(18697), day(18702)).unwrap();
    assert_eq!(walk.from, day(18698));
    assert_eq!(walk.collect(&cal), vec![day(18698), day(18701)]);
    assert_eq!(MarketDays::after(day(i32::MAX), day(0)), None);
}

#[test]
fn a_month_is_valid_when_it_is_one_of_the_twelve() {
    assert!((YearMonth { year: 2020, month: 1 }).is_valid());
    assert!((YearMonth { year: 2020, month: 12 }).is_valid());
    assert!(!(YearMonth { year: 2020, month: 0 }).is_valid());
    assert!(!(YearMonth { year: 2020, month: 13 }).is_valid());
}

#[test]
fn a_walk_without_a_day_left_rests_on_the_next_session() {
    let cal = week_of_march();
    // Saturday only: the next session is the Monday, past the end of the walk
    let mut walk = MarketDays { from: day(18699), to: day(18700) };
    assert_eq!(walk.next(&cal), None);
    assert_eq!(walk.from, day(18701));
    assert_eq!(walk.to, day(18700));
    // and it stays there
    assert_eq!(walk.next(&cal), None);
    assert_eq!(walk.from, day(18701));
    // a walk that begins past its end on a session rests on it
    let mut past = MarketDays { from: day(18697), to: day(18694) };
    assert_eq!(past.next(&cal), None);
    assert_eq!(past.from, day(18697));
}

#[test]
fn a_walk_without_any_session_ahead_moves_to_its_end() {
    let cal = week_of_march();
    let mut walk = MarketDays { from: day(18702), to: day(18710) };
    assert_eq!(walk.next(&cal), None);
    assert_eq!(walk.from, day(18710));
    let mut past = MarketDays { from: day(18710), to: day(18702) };
    assert_eq!(past.next(&cal), None);
    assert_eq!(past.from, day(18710));
    let closed = SessionCalendar { first: day(0), open: vec![false, false] };
    let mut never = MarketDays { from: day(-5), to: day(1) };
    assert_eq!(never.next(&closed), None);
    assert_eq!(never.from, day(1));
}

#[test]
fn a_walk_begins_at_the_first_day_of_the_calendar() {
    let cal = week_of_march();
    let mut walk = MarketDays { from: day(18000), to: day(18696) };
    assert_eq!(walk.next(&cal), Some(day(18694)));
    assert_eq!(walk.from, day(18695));
    assert_eq!(walk.next(&cal), Some(day(18695)));
    assert_eq!(walk.next(&cal), None);
    assert_eq!(walk.from, day(18696));
}

#[test]
fn a_month_ahead_and_back_is_the_same_day() {
    for n in [18276, 18293, 18611, 12418] {
        let ahead = add_month(&day(n)).unwrap();
        assert_eq!(sub_month(&ahead), Some(day(n)));
        let back = sub_month(&day(n)).unwrap();
        assert_eq!(add_month(&back), Some(day(n)));
    }
}

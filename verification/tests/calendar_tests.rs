use earnings::calendar::{from_ymd, Date};

fn d(y: u64, m: u64, day: u64) -> Date {
    from_ymd(y, m, day).unwrap()
}

#[test]
fn day_counts_match_known_dates() {
    assert_eq!(d(1, 1, 1).day, 1);
    assert_eq!(d(1970, 1, 1).day, 719163);
    assert_eq!(d(2024, 3, 8).day, 738953);
}

#[test]
fn weekday_index_is_day_mod_seven() {
    // 2024-03-08 was a Friday, 2024-03-10 a Sunday, 2024-03-11 a Monday.
    assert_eq!(d(2024, 3, 8).day % 7, 5);
    assert_eq!(d(2024, 3, 9).day % 7, 6);
    assert_eq!(d(2024, 3, 10).day % 7, 0);
    assert_eq!(d(2024, 3, 11).day % 7, 1);
    // 1970-01-01 was a Thursday.
    assert_eq!(d(1970, 1, 1).day % 7, 4);
}

#[test]
fn rejects_invalid_dates() {
    assert!(from_ymd(2023, 2, 29).is_none());
    assert!(from_ymd(2024, 2, 29).is_some());
    assert!(from_ymd(1900, 2, 29).is_none());
    assert!(from_ymd(2000, 2, 29).is_some());
    assert!(from_ymd(2024, 13, 1).is_none());
    assert!(from_ymd(2024, 0, 1).is_none());
    assert!(from_ymd(0, 1, 1).is_none());
    assert!(from_ymd(2024, 4, 31).is_none());
}

#[test]
fn next_trading_day_skips_weekends() {
    // Friday 2024-03-08 jumps three days to Monday 2024-03-11.
    assert_eq!(d(2024, 3, 8).next_trading_day(), d(2024, 3, 11));
    // Saturday 2024-03-09 jumps two days to Monday 2024-03-11.
    assert_eq!(d(2024, 3, 9).next_trading_day(), d(2024, 3, 11));
    // Thursday 2024-03-07 steps to Friday 2024-03-08.
    assert_eq!(d(2024, 3, 7).next_trading_day(), d(2024, 3, 8));
}

#[test]
fn prev_trading_day_skips_weekends() {
    // Monday 2024-03-11 jumps three days back to Friday 2024-03-08.
    assert_eq!(d(2024, 3, 11).prev_trading_day(), d(2024, 3, 8));
    // Sunday 2024-03-10 jumps two days back to Friday 2024-03-08.
    assert_eq!(d(2024, 3, 10).prev_trading_day(), d(2024, 3, 8));
    // Friday 2024-03-08 steps back to Thursday 2024-03-07.
    assert_eq!(d(2024, 3, 8).prev_trading_day(), d(2024, 3, 7));
}

#[test]
fn closest_trading_day_steps_back_on_weekends() {
    assert_eq!(d(2024, 3, 9).closest_trading_day(), d(2024, 3, 8));
    assert_eq!(d(2024, 3, 10).closest_trading_day(), d(2024, 3, 8));
    assert_eq!(d(2024, 3, 8).closest_trading_day(), d(2024, 3, 8));
    assert_eq!(d(2024, 3, 6).closest_trading_day(), d(2024, 3, 6));
}

#[test]
fn trading_day_roundtrip_on_weekdays() {
    // Monday through Friday of one week.
    for day in 11..=15 {
        let date = d(2024, 3, day);
        assert_eq!(date.prev_trading_day().next_trading_day(), date);
        assert_eq!(date.next_trading_day().prev_trading_day(), date);
    }
}

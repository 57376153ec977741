use ptc::time::{Timestamp, TradingDay};

#[test]
fn parses_and_renders_iso_dates() {
    let day = TradingDay::parse("2026-08-29").unwrap();
    assert_eq!(day.render(), "2026-08-29");
    assert_eq!(day.year(), 2026);
}

#[test]
fn rejects_non_canonical_or_impossible_dates() {
    for bad in ["2026-8-1", "2026-08-29T00:00:00", "29-08-2026", "2026-02-30", ""] {
        assert!(TradingDay::parse(bad).is_err(), "should have rejected {bad:?}");
    }
    assert!(TradingDay::from_ymd(2026, 13, 1).is_err());
    assert!(TradingDay::from_ymd(2026, 2, 29).is_err());
    assert!(TradingDay::from_ymd(2024, 2, 29).is_ok());
}

#[test]
fn days_order_and_advance_across_boundaries() {
    let dec31 = TradingDay::parse("2026-12-31").unwrap();
    assert_eq!(dec31.succ().unwrap().render(), "2027-01-01");
    assert!(TradingDay::parse("2026-08-28").unwrap() < dec31);
    assert!(TradingDay::parse("2026-08-28").unwrap().before(dec31));
}

#[test]
fn timestamps_are_values_not_readings() {
    let t = Timestamp::from_millis(1_772_000_000_000);
    assert_eq!(t.as_millis(), 1_772_000_000_000);
    assert!(Timestamp::from_millis(1) < Timestamp::from_millis(2));
}

#[test]
fn a_leap_day_advances_to_march() {
    let d = TradingDay::from_ymd(2024, 2, 29).unwrap();
    assert_eq!(d.succ().unwrap().render(), "2024-03-01");
    assert_eq!((d.month(), d.day()), (2, 29));
}

use mev_builders::dates::{
    dates_between, format_date, get_date_range, parse_date, resolve_date_range, trailing_dates,
    Date,
};
use mev_builders::StatsError;

#[test]
fn parse_and_format_dates() {
    let d = parse_date("2024-02-29").expect("leap day parses");
    assert_eq!(d, Date { year: 2024, month: 2, day: 29 });
    assert_eq!(format_date(&d), "2024-02-29");
    assert!(parse_date("2023-02-29").is_none());
    assert!(parse_date("2023-13-01").is_none());
    assert!(parse_date("2023-00-10").is_none());
    assert!(parse_date("2023-1-01").is_none());
    assert!(parse_date("20230101").is_none());
    assert!(parse_date("abcd-ef-gh").is_none());
    assert_eq!(parse_date("0001-01-01"), Some(Date { year: 1, month: 1, day: 1 }));
    assert_eq!(parse_date("9999-12-31"), Some(Date { year: 9999, month: 12, day: 31 }));
}

#[test]
fn explicit_range_is_contiguous_ascending() {
    let start = Date { year: 2024, month: 2, day: 27 };
    let end = Date { year: 2024, month: 3, day: 1 };
    let ds = dates_between(start, end);
    let want = vec![
        "2024-02-27", "2024-02-28", "2024-02-29", "2024-03-01",
    ];
    assert_eq!(ds.len(), want.len());
    for (d, w) in ds.iter().zip(want.iter()) {
        assert_eq!(format_date(d), *w);
    }
}

#[test]
fn reversed_bounds_are_swapped() {
    let today = Date { year: 2030, month: 1, day: 1 };
    let ds = resolve_date_range(Some("2023-01-03"), Some("2023-01-01"), 7, today).unwrap();
    assert_eq!(ds.len(), 3);
    assert_eq!(format_date(&ds[0]), "2023-01-01");
    assert_eq!(format_date(&ds[1]), "2023-01-02");
    assert_eq!(format_date(&ds[2]), "2023-01-03");
}

#[test]
fn bad_explicit_bound_is_invalid_date_format() {
    let today = Date { year: 2030, month: 1, day: 1 };
    assert!(matches!(
        resolve_date_range(Some("2023/01/03"), Some("2023-01-01"), 7, today),
        Err(StatsError::InvalidDateFormat)
    ));
    assert!(matches!(
        resolve_date_range(Some("2023-01-03"), Some("2023-01-32"), 7, today),
        Err(StatsError::InvalidDateFormat)
    ));
}

#[test]
fn default_range_ends_day_before_today() {
    // seven days ending the day before March 1 of a leap year
    let today = Date { year: 2024, month: 3, day: 1 };
    let ds = trailing_dates(today, 7);
    let want = vec![
        "2024-02-23", "2024-02-24", "2024-02-25", "2024-02-26", "2024-02-27", "2024-02-28",
        "2024-02-29",
    ];
    assert_eq!(ds.len(), 7);
    for (d, w) in ds.iter().zip(want.iter()) {
        assert_eq!(format_date(d), *w);
    }
}

#[test]
fn non_positive_days_yield_empty_range() {
    let today = Date { year: 2024, month: 3, day: 1 };
    assert!(trailing_dates(today, 0).is_empty());
    assert!(trailing_dates(today, -3).is_empty());
    let ds = resolve_date_range(None, None, 0, today).unwrap();
    assert!(ds.is_empty());
}

#[test]
fn year_rollover_walks_into_previous_year() {
    let today = Date { year: 2024, month: 1, day: 2 };
    let ds = trailing_dates(today, 3);
    assert_eq!(ds.len(), 3);
    assert_eq!(format_date(&ds[0]), "2023-12-30");
    assert_eq!(format_date(&ds[1]), "2023-12-31");
    assert_eq!(format_date(&ds[2]), "2024-01-01");
}

#[test]
fn clock_based_range_has_requested_length() {
    let r = get_date_range(None, None, 3).expect("clock range resolves");
    assert_eq!(r.len(), 3);
    for w in r.windows(2) {
        assert!(w[0] < w[1], "dates should ascend: {} then {}", w[0], w[1]);
    }
    for d in &r {
        assert!(parse_date(d).is_some(), "resolved date should parse: {}", d);
    }
}

#[test]
fn explicit_range_via_strings() {
    let r = get_date_range(Some("2022-12-30"), Some("2023-01-02"), 7).unwrap();
    assert_eq!(r, vec!["2022-12-30", "2022-12-31", "2023-01-01", "2023-01-02"]);
}

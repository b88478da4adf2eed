use alertbot::clock::{local_civil_date, local_midnight_instant, local_seconds_of_day};
use alertbot::date::{days_in_month, days_to_date, date_to_days, resolve_partial_date, Date};

fn d(year: u16, month: u8, day: u8) -> Date {
    Date { year, month, day }
}

#[test]
fn day_numbers_of_known_dates() {
    assert_eq!(date_to_days(d(1970, 1, 1)), 0);
    assert_eq!(date_to_days(d(1970, 1, 2)), 1);
    assert_eq!(date_to_days(d(2000, 3, 1)), 11017);
    assert_eq!(date_to_days(d(2024, 2, 29)), 19782);
    assert_eq!(date_to_days(d(2001, 9, 9)), 11574);
}

#[test]
fn day_numbers_round_trip() {
    for n in [0u64, 1, 364, 365, 11017, 19782, 2928029] {
        assert_eq!(date_to_days(days_to_date(n)), n);
    }
    assert_eq!(days_to_date(11574), d(2001, 9, 9));
}

#[test]
fn month_lengths() {
    assert_eq!(days_in_month(2024, 2), 29);
    assert_eq!(days_in_month(2023, 2), 28);
    assert_eq!(days_in_month(2000, 2), 29);
    assert_eq!(days_in_month(2100, 2), 28);
    assert_eq!(days_in_month(2023, 4), 30);
    assert_eq!(days_in_month(2023, 12), 31);
}

#[test]
fn partial_dates_resolve_forward() {
    let today = d(2025, 6, 15);
    assert_eq!(resolve_partial_date(5, 3, today), d(2026, 3, 5));
    assert_eq!(resolve_partial_date(20, 6, today), d(2025, 6, 20));
    assert_eq!(resolve_partial_date(15, 6, today), d(2025, 6, 15));
    assert_eq!(resolve_partial_date(14, 6, today), d(2026, 6, 14));
}

#[test]
fn leap_day_resolves_to_next_leap_year() {
    assert_eq!(resolve_partial_date(29, 2, d(2025, 1, 1)), d(2028, 2, 29));
    assert_eq!(resolve_partial_date(29, 2, d(2024, 2, 29)), d(2024, 2, 29));
    assert_eq!(resolve_partial_date(29, 2, d(2024, 3, 1)), d(2028, 2, 29));
}

#[test]
fn midnight_instants() {
    assert_eq!(local_midnight_instant(d(1970, 1, 2), 0), 86400);
    assert_eq!(local_midnight_instant(d(1970, 1, 2), 39600), 46800);
    assert_eq!(local_midnight_instant(d(2026, 3, 5), 39600), 1772629200);
}

#[test]
fn civil_date_under_offset() {
    assert_eq!(local_civil_date(1_000_000_000, 18000), d(2001, 9, 9));
    assert_eq!(local_seconds_of_day(1_000_000_000, 18000), 6 * 3600 + 46 * 60 + 40);
}

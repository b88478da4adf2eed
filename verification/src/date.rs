//! Calendar arithmetic: civil dates, day numbers counted from 1970-01-01,
//! and resolution of a partial day/month to its next occurrence.

use vstd::prelude::*;
use vstd::arithmetic::div_mod::{
    lemma_fundamental_div_mod, lemma_fundamental_div_mod_converse_mod,
    lemma_mod_division_less_than_divisor, lemma_div_pos_is_pos,
};

verus! {

/// First year of the supported calendar range.
pub const EPOCH_YEAR: u16 = 1970;

/// Last year a resolved event date may fall in.
pub const MAX_YEAR: u16 = 9999;

/// Largest day number (since 1970-01-01) that instants are converted from.
/// It keeps every derived year at most eight years below `MAX_YEAR`, so a
/// partial date can always be resolved.
pub const MAX_EPOCH_DAY: u64 = 2928029;

/// A civil date: year, month (1-12) and day of month (1-based).
#[derive(Clone, Copy, PartialEq, Eq, Structural, Debug)]
pub struct Date {
    pub year: u16,
    pub month: u8,
    pub day: u8,
}

pub open spec fn is_leap_year(y: int) -> bool {
    (y % 4 == 0 && y % 100 != 0) || y % 400 == 0
}

pub open spec fn days_in_year(y: int) -> int {
    if is_leap_year(y) {
        366
    } else {
        365
    }
}

pub open spec fn spec_days_in_month(y: int, m: int) -> int {
    if m == 2 {
        if is_leap_year(y) {
            29
        } else {
            28
        }
    } else if m == 4 || m == 6 || m == 9 || m == 11 {
        30
    } else {
        31
    }
}

/// Largest day of month `m` over all years.
pub open spec fn max_days_in_month(m: int) -> int {
    if m == 2 {
        29
    } else if m == 4 || m == 6 || m == 9 || m == 11 {
        30
    } else {
        31
    }
}

pub open spec fn valid_date(y: int, m: int, d: int) -> bool {
    EPOCH_YEAR <= y <= MAX_YEAR && 1 <= m <= 12 && 1 <= d <= spec_days_in_month(y, m)
}

pub open spec fn date_valid(d: Date) -> bool {
    valid_date(d.year as int, d.month as int, d.day as int)
}

/// Days from 1970-01-01 up to January 1st of year `y`.
pub open spec fn days_before_year(y: int) -> int
    decreases y,
{
    if y <= EPOCH_YEAR {
        0
    } else {
        days_before_year(y - 1) + days_in_year(y - 1)
    }
}

/// Days from January 1st of year `y` up to the first day of month `m`.
pub open spec fn days_before_month(y: int, m: int) -> int
    decreases m,
{
    if m <= 1 {
        0
    } else {
        days_before_month(y, m - 1) + spec_days_in_month(y, m - 1)
    }
}

/// The day number of a civil date, counted from 1970-01-01 as day 0.
pub open spec fn day_number(y: int, m: int, d: int) -> int {
    days_before_year(y) + days_before_month(y, m) + d - 1
}

pub open spec fn date_day_number(d: Date) -> int {
    day_number(d.year as int, d.month as int, d.day as int)
}

pub proof fn lemma_days_before_year_bounds(y: int)
    requires
        EPOCH_YEAR <= y,
    ensures
        365 * (y - EPOCH_YEAR) <= days_before_year(y) <= 366 * (y - EPOCH_YEAR),
    decreases y,
{
    if y > EPOCH_YEAR {
        lemma_days_before_year_bounds(y - 1);
    }
}

pub proof fn lemma_days_before_year_monotone(y1: int, y2: int)
    requires
        EPOCH_YEAR <= y1 <= y2,
    ensures
        days_before_year(y1) + 365 * (y2 - y1) <= days_before_year(y2),
    decreases y2,
{
    if y1 < y2 {
        lemma_days_before_year_monotone(y1, y2 - 1);
    }
}

pub proof fn lemma_days_before_month_bounds(y: int, m: int)
    requires
        1 <= m <= 13,
    ensures
        28 * (m - 1) <= days_before_month(y, m) <= 31 * (m - 1),
    decreases m,
{
    if m > 1 {
        lemma_days_before_month_bounds(y, m - 1);
    }
}

pub proof fn lemma_days_before_month_monotone(y: int, m1: int, m2: int)
    requires
        1 <= m1 <= m2 <= 13,
    ensures
        days_before_month(y, m1) + 28 * (m2 - m1) <= days_before_month(y, m2),
    decreases m2,
{
    if m1 < m2 {
        lemma_days_before_month_monotone(y, m1, m2 - 1);
    }
}

/// The twelve months of year `y` sum to the length of the year.
pub proof fn lemma_months_sum_to_year(y: int)
    ensures
        days_before_month(y, 13) == days_in_year(y),
{
    assert(days_before_month(y, 13) == days_in_year(y)) by {
        reveal_with_fuel(days_before_month, 13);
    }
}

/// Day numbers respect the lexicographic order on valid dates.
pub proof fn lemma_day_number_order(y1: int, m1: int, d1: int, y2: int, m2: int, d2: int)
    requires
        valid_date(y1, m1, d1),
        valid_date(y2, m2, d2),
        y1 < y2 || (y1 == y2 && m1 < m2) || (y1 == y2 && m1 == m2 && d1 <= d2),
    ensures
        day_number(y1, m1, d1) <= day_number(y2, m2, d2),
        y1 < y2 || m1 < m2 || d1 < d2 ==> day_number(y1, m1, d1) < day_number(y2, m2, d2),
{
    if y1 == y2 && m1 == m2 {
    } else if y1 == y2 {
        lemma_days_before_month_monotone(y1, m1 + 1, m2);
        assert(days_before_month(y1, m1 + 1) == days_before_month(y1, m1) + spec_days_in_month(
            y1,
            m1,
        ));
    } else {
        lemma_days_before_month_monotone(y1, m1 + 1, 13);
        assert(days_before_month(y1, m1 + 1) == days_before_month(y1, m1) + spec_days_in_month(
            y1,
            m1,
        ));
        lemma_months_sum_to_year(y1);
        assert(days_before_year(y1 + 1) == days_before_year(y1) + days_in_year(y1));
        lemma_days_before_year_monotone(y1 + 1, y2);
        lemma_days_before_month_bounds(y2, m2);
    }
}

/// Every eight consecutive years contain a leap year.
pub proof fn lemma_leap_year_in_window(y: int)
    requires
        0 <= y,
    ensures
        exists|k: int| 0 <= k < 8 && #[trigger] is_leap_year(y + k),
{
    lemma_fundamental_div_mod(y, 4);
    lemma_mod_division_less_than_divisor(y, 4);
    lemma_div_pos_is_pos(y, 4);
    let r = y % 4;
    let j0: int = if r == 0 {
        0
    } else {
        4 - r
    };
    let c = y + j0;
    assert(c == 4 * (y / 4 + if r == 0 { 0int } else { 1int }));
    lemma_fundamental_div_mod_converse_mod(c, 4, y / 4 + if r == 0 { 0int } else { 1int }, 0);
    assert(c % 4 == 0);
    if c % 100 != 0 {
        assert(is_leap_year(y + j0));
    } else if c % 400 == 0 {
        assert(is_leap_year(y + j0));
    } else {
        let c2 = c + 4;
        lemma_fundamental_div_mod(c, 100);
        assert(c2 == 100 * (c / 100) + 4);
        lemma_fundamental_div_mod_converse_mod(c2, 100, c / 100, 4);
        assert(c2 % 100 == 4);
        assert(c2 == 4 * (y / 4 + if r == 0 { 1int } else { 2int }));
        lemma_fundamental_div_mod_converse_mod(c2, 4, y / 4 + if r == 0 { 1int } else { 2int }, 0);
        assert(c2 % 4 == 0);
        assert(is_leap_year(y + (j0 + 4)));
    }
}

fn is_leap(y: u16) -> (b: bool)
    ensures
        b == is_leap_year(y as int),
{
    (y % 4 == 0 && y % 100 != 0) || y % 400 == 0
}

/// The number of days in month `m` of year `y`.
pub fn days_in_month(y: u16, m: u8) -> (r: u8)
    requires
        1 <= m <= 12,
    ensures
        r as int == spec_days_in_month(y as int, m as int),
{
    if m == 2 {
        if is_leap(y) {
            29
        } else {
            28
        }
    } else if m == 4 || m == 6 || m == 9 || m == 11 {
        30
    } else {
        31
    }
}

fn days_in_year_exec(y: u16) -> (r: u16)
    ensures
        r as int == days_in_year(y as int),
{
    if is_leap(y) {
        366
    } else {
        365
    }
}

/// The day number (since 1970-01-01) of a valid date.
pub fn date_to_days(date: Date) -> (n: u64)
    requires
        date_valid(date),
    ensures
        n as int == date_day_number(date),
{
    let mut acc: u64 = 0;
    let mut y: u16 = EPOCH_YEAR;
    while y < date.year
        invariant
            EPOCH_YEAR <= y <= date.year,
            date.year <= MAX_YEAR,
            acc as int == days_before_year(y as int),
            acc <= 366 * (y - EPOCH_YEAR),
        decreases date.year - y,
    {
        proof {
            lemma_days_before_year_bounds(y as int);
        }
        acc = acc + days_in_year_exec(y) as u64;
        y = y + 1;
        proof {
            lemma_days_before_year_bounds(y as int);
        }
    }
    let mut m: u8 = 1;
    while m < date.month
        invariant
            1 <= m <= date.month,
            date.month <= 12,
            acc as int == days_before_year(date.year as int) + days_before_month(
                date.year as int,
                m as int,
            ),
            acc <= 366 * (MAX_YEAR - EPOCH_YEAR) + 31 * (m - 1),
        decreases date.month - m,
    {
        acc = acc + days_in_month(date.year, m) as u64;
        m = m + 1;
    }
    acc + (date.day - 1) as u64
}

/// The valid date whose day number (since 1970-01-01) is `n`.
pub fn days_to_date(n: u64) -> (d: Date)
    requires
        n <= MAX_EPOCH_DAY,
    ensures
        date_valid(d),
        date_day_number(d) == n as int,
        d.year as int + 8 <= MAX_YEAR as int,
{
    let mut y: u16 = EPOCH_YEAR;
    let mut acc: u64 = 0;
    while acc + days_in_year_exec(y) as u64 <= n
        invariant
            EPOCH_YEAR <= y,
            y as int + 8 <= MAX_YEAR as int,
            acc as int == days_before_year(y as int),
            acc <= n,
            n <= MAX_EPOCH_DAY,
        decreases n - acc,
    {
        acc = acc + days_in_year_exec(y) as u64;
        y = y + 1;
        proof {
            lemma_days_before_year_bounds(y as int);
        }
    }
    let mut m: u8 = 1;
    while acc + days_in_month(y, m) as u64 <= n
        invariant
            1 <= m <= 12,
            EPOCH_YEAR <= y,
            y as int + 8 <= MAX_YEAR as int,
            n <= MAX_EPOCH_DAY,
            acc as int == days_before_year(y as int) + days_before_month(y as int, m as int),
            acc <= n,
            (n as int) < days_before_year(y as int) + days_in_year(y as int),
        decreases 12 - m,
    {
        proof {
            if m == 12 {
                lemma_months_sum_to_year(y as int);
            }
        }
        acc = acc + days_in_month(y, m) as u64;
        m = m + 1;
    }
    let day = (n - acc) as u8 + 1;
    Date { year: y, month: m, day }
}

/// No two valid dates share a day number.
pub proof fn lemma_day_number_unique(a: Date, b: Date)
    requires
        date_valid(a),
        date_valid(b),
        date_day_number(a) == date_day_number(b),
    ensures
        a == b,
{
    let lt = (a.year < b.year) || (a.year == b.year && a.month < b.month) || (a.year == b.year
        && a.month == b.month && a.day < b.day);
    let gt = (b.year < a.year) || (b.year == a.year && b.month < a.month) || (b.year == a.year
        && b.month == a.month && b.day < a.day);
    if lt {
        lemma_day_number_order(
            a.year as int,
            a.month as int,
            a.day as int,
            b.year as int,
            b.month as int,
            b.day as int,
        );
    } else if gt {
        lemma_day_number_order(
            b.year as int,
            b.month as int,
            b.day as int,
            a.year as int,
            a.month as int,
            a.day as int,
        );
    }
}

/// The valid date with day number `n`, where one exists.
pub open spec fn spec_date_of(n: int) -> Date {
    choose|d: Date| date_valid(d) && date_day_number(d) == n
}

/// A valid date is the date of its own day number.
pub proof fn lemma_spec_date_of(d: Date)
    requires
        date_valid(d),
    ensures
        spec_date_of(date_day_number(d)) == d,
{
    let n = date_day_number(d);
    assert(date_valid(d) && date_day_number(d) == n);
    let c = spec_date_of(n);
    assert(date_valid(c) && date_day_number(c) == n);
    lemma_day_number_unique(c, d);
}

/// A day and month that some year can hold.
pub open spec fn partial_date_ok(day: int, month: int) -> bool {
    1 <= month <= 12 && 1 <= day <= max_days_in_month(month)
}

/// Whether `day/month` of year `y` is a valid date not earlier than `today`.
pub open spec fn occurrence_ok(day: int, month: int, y: int, today: Date) -> bool {
    valid_date(y, month, day) && date_day_number(today) <= day_number(y, month, day)
}

/// What resolving a partial date owes: same day and month, a valid date not
/// before `today`, in the earliest year that holds such a date.
pub open spec fn partial_resolution_ok(day: int, month: int, today: Date, r: Date) -> bool {
    &&& r.day as int == day
    &&& r.month as int == month
    &&& date_valid(r)
    &&& date_day_number(today) <= date_day_number(r)
    &&& today.year <= r.year
    &&& forall|yy: int| today.year <= yy < r.year ==> !occurrence_ok(day, month, yy, today)
}

/// The one date that resolving `day/month` at `today` yields.
pub open spec fn spec_resolve_partial(day: int, month: int, today: Date) -> Date {
    choose|r: Date| partial_resolution_ok(day, month, today, r)
}

/// At most one date satisfies the resolution contract.
pub proof fn lemma_resolve_partial_unique(day: int, month: int, today: Date, a: Date, b: Date)
    requires
        partial_resolution_ok(day, month, today, a),
        partial_resolution_ok(day, month, today, b),
    ensures
        a == b,
{
    if a.year < b.year {
        assert(!occurrence_ok(day, month, a.year as int, today));
        assert(valid_date(a.year as int, month, day));
        assert(false);
    } else if b.year < a.year {
        assert(!occurrence_ok(day, month, b.year as int, today));
        assert(valid_date(b.year as int, month, day));
        assert(false);
    }
}

proof fn lemma_resolution_exists(day: int, month: int, today: Date)
    requires
        date_valid(today),
        partial_date_ok(day, month),
        today.year as int + 8 <= MAX_YEAR as int,
    ensures
        exists|yy: int|
            today.year <= yy < today.year + 9 && #[trigger] occurrence_ok(day, month, yy, today),
{
    let ty = today.year as int;
    if !(month == 2 && day == 29) {
        if !occurrence_ok(day, month, ty, today) {
            assert(valid_date(ty + 1, month, day));
            lemma_day_number_order(
                today.year as int,
                today.month as int,
                today.day as int,
                ty + 1,
                month,
                day,
            );
            assert(occurrence_ok(day, month, ty + 1, today));
        }
    } else {
        if !occurrence_ok(day, month, ty, today) {
            lemma_leap_year_in_window(ty + 1);
            let j = choose|j: int| 0 <= j < 8 && #[trigger] is_leap_year(ty + 1 + j);
            assert(valid_date(ty + 1 + j, month, day));
            lemma_day_number_order(
                today.year as int,
                today.month as int,
                today.day as int,
                ty + 1 + j,
                month,
                day,
            );
            assert(occurrence_ok(day, month, ty + 1 + j, today));
        }
    }
}

/// Resolve a partial `day/month` to its earliest occurrence on or after
/// `today`: the current year if the date is still to come, else the next
/// year that holds the date.
pub fn resolve_partial_date(day: u8, month: u8, today: Date) -> (r: Date)
    requires
        date_valid(today),
        partial_date_ok(day as int, month as int),
        today.year as int + 8 <= MAX_YEAR as int,
    ensures
        r.day == day,
        r.month == month,
        date_valid(r),
        date_day_number(today) <= date_day_number(r),
        today.year <= r.year,
        forall|yy: int|
            today.year <= yy < r.year ==> !occurrence_ok(day as int, month as int, yy, today),
        r == spec_resolve_partial(day as int, month as int, today),
{
    let mut k: u8 = 0;
    while k < 9
        invariant
            k <= 9,
            date_valid(today),
            partial_date_ok(day as int, month as int),
            today.year as int + 8 <= MAX_YEAR as int,
            forall|yy: int|
                today.year <= yy < today.year + k ==> !occurrence_ok(
                    day as int,
                    month as int,
                    yy,
                    today,
                ),
        decreases 9 - k,
    {
        let y = today.year + k as u16;
        let fits = day <= days_in_month(y, month);
        let not_past = if k > 0 {
            true
        } else {
            month > today.month || (month == today.month && day >= today.day)
        };
        if fits && not_past {
            let res = Date { year: y, month, day };
            proof {
                lemma_day_number_order(
                    today.year as int,
                    today.month as int,
                    today.day as int,
                    y as int,
                    month as int,
                    day as int,
                );
                assert(partial_resolution_ok(day as int, month as int, today, res));
                lemma_resolve_partial_unique(
                    day as int,
                    month as int,
                    today,
                    res,
                    spec_resolve_partial(day as int, month as int, today),
                );
            }
            return res;
        }
        proof {
            if fits {
                assert(k == 0 && !not_past);
                if occurrence_ok(day as int, month as int, y as int, today) {
                    lemma_day_number_order(
                        y as int,
                        month as int,
                        day as int,
                        today.year as int,
                        today.month as int,
                        today.day as int,
                    );
                    assert(false);
                }
            }
        }
        k = k + 1;
    }
    proof {
        lemma_resolution_exists(day as int, month as int, today);
        assert(false);
    }
    today
}

} // verus!

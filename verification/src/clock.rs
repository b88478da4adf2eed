//! Instants as whole seconds since the Unix epoch, their conversion to
//! local civil dates under a fixed UTC offset, and the system clock.

use vstd::prelude::*;
use vstd::arithmetic::div_mod::{lemma_fundamental_div_mod, lemma_mod_division_less_than_divisor};
use crate::date::{
    Date, MAX_EPOCH_DAY, MAX_YEAR, date_day_number, date_to_days, date_valid, days_to_date,
    lemma_days_before_month_bounds, lemma_days_before_year_bounds, lemma_spec_date_of,
    spec_date_of,
};

verus! {

/// Westernmost supported UTC offset, -12:00, in seconds.
pub const MIN_OFFSET_SECONDS: i32 = -43200;

/// Easternmost supported UTC offset, +14:00, in seconds.
pub const MAX_OFFSET_SECONDS: i32 = 50400;

/// The offset a server starts with, +11:00, in seconds.
pub const DEFAULT_OFFSET_SECONDS: i32 = 39600;

pub open spec fn valid_offset(o: int) -> bool {
    MIN_OFFSET_SECONDS <= o <= MAX_OFFSET_SECONDS
}

/// Instants the library works on: late enough that every supported offset
/// keeps the local time after 1970, early enough that every supported
/// offset keeps the local day at most `MAX_EPOCH_DAY`.
pub open spec fn instant_in_range(now: int) -> bool {
    43200 <= now && now + 50400 <= MAX_EPOCH_DAY * 86400
}

/// The instant at which date `d` begins in a zone `offset` seconds east of UTC.
pub open spec fn spec_local_midnight(d: Date, offset: int) -> int {
    date_day_number(d) * 86400 - offset
}

/// The instant of local midnight of `d` under `offset_seconds`.
pub fn local_midnight_instant(d: Date, offset_seconds: i32) -> (ts: i64)
    requires
        date_valid(d),
        valid_offset(offset_seconds as int),
    ensures
        ts as int == spec_local_midnight(d, offset_seconds as int),
{
    let days = date_to_days(d);
    proof {
        lemma_days_before_year_bounds(d.year as int);
        lemma_days_before_month_bounds(d.year as int, d.month as int);
    }
    (days as i64) * 86400 - (offset_seconds as i64)
}

/// The civil date that a clock `offset_seconds` east of UTC shows at `now`.
pub fn local_civil_date(now: i64, offset_seconds: i32) -> (d: Date)
    requires
        instant_in_range(now as int),
        valid_offset(offset_seconds as int),
    ensures
        date_valid(d),
        date_day_number(d) == (now as int + offset_seconds as int) / 86400,
        d.year as int + 8 <= MAX_YEAR as int,
        d == spec_date_of((now as int + offset_seconds as int) / 86400),
{
    let local = (now + offset_seconds as i64) as u64;
    let day = local / 86400;
    proof {
        lemma_fundamental_div_mod(local as int, 86400);
        lemma_mod_division_less_than_divisor(local as int, 86400);
    }
    let d = days_to_date(day);
    proof {
        lemma_spec_date_of(d);
    }
    d
}

/// Seconds since local midnight that a clock `offset_seconds` east of UTC
/// shows at `now`.
pub fn local_seconds_of_day(now: i64, offset_seconds: i32) -> (s: u64)
    requires
        instant_in_range(now as int),
        valid_offset(offset_seconds as int),
    ensures
        s as int == (now as int + offset_seconds as int) % 86400,
        s < 86400,
{
    let local = (now + offset_seconds as i64) as u64;
    proof {
        lemma_mod_division_less_than_divisor(local as int, 86400);
    }
    local % 86400
}

/// Relies on `time::OffsetDateTime::now_utc` and `unix_timestamp`: the
/// moment the system clock reads, as whole seconds since the Unix epoch.
/// Nothing is assumed of the value; callers test it before use. Relies
/// also on the host clock lying within the years the time crate
/// represents (up to ±9999): converting a clock reading outside them
/// aborts inside `now_utc` itself.
#[verifier::external_body]
fn now_unix_seconds() -> i64 {
    time::OffsetDateTime::now_utc().unix_timestamp()
}

/// A clock reading admitted to the supported range, or `None`: `Some(t)`
/// exactly when `t` lies within `instant_in_range`, never any other value.
pub fn classify_instant(t: i64) -> (r: Option<i64>)
    ensures
        r == (if instant_in_range(t as int) {
            Some(t)
        } else {
            Option::<i64>::None
        }),
{
    if 43200 <= t && t <= (MAX_EPOCH_DAY as i64) * 86400 - 50400 {
        Some(t)
    } else {
        None
    }
}

/// The current instant, if the system clock reads within the supported
/// range; `None` for a clock before 1970 or beyond the supported years.
pub fn current_instant() -> (r: Option<i64>)
    ensures
        r matches Some(t) ==> instant_in_range(t as int),
{
    classify_instant(now_unix_seconds())
}

} // verus!

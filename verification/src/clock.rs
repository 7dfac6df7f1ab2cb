//! Jakarta (WIB) calendar time, through `chrono` and `chrono-tz`.
//!
//! Instants are seconds since the Unix epoch in UTC. What the time-zone
//! database says of Jakarta is named here, not restated.

use vstd::prelude::*;
use chrono::{Datelike, TimeZone};

verus! {

/// The calendar date (year, month, day) in Asia/Jakarta at the instant
/// `ts`, or nothing where `chrono` cannot hold that instant.
pub uninterp spec fn jakarta_date(ts: i64) -> Option<(i32, u32, u32)>;

/// The instant at which the day `y-m-d` starts in Asia/Jakarta, where that
/// date exists and its midnight is a single instant.
pub uninterp spec fn jakarta_midnight(y: i32, m: u32, d: u32) -> Option<i64>;

/// Date `a` comes before date `b` (year, month, day).
pub open spec fn date_before(a: (i32, u32, u32), b: (i32, u32, u32)) -> bool {
    ||| a.0 < b.0
    ||| (a.0 == b.0 && a.1 < b.1)
    ||| (a.0 == b.0 && a.1 == b.1 && a.2 < b.2)
}

/// A leap year of the Gregorian calendar.
pub open spec fn is_leap_year(y: int) -> bool {
    (y % 4 == 0 && y % 100 != 0) || y % 400 == 0
}

/// The number of days of month `m` of year `y`.
pub open spec fn days_in_month(y: int, m: int) -> int {
    if m == 2 {
        if is_leap_year(y) {
            29
        } else {
            28
        }
    } else if m == 4 || m == 6 || m == 9 || m == 11 {
        30
    } else {
        31
    }
}

/// The date in Jakarta at the instant `ts`.
///
/// Trusted: `chrono::DateTime::from_timestamp(ts, 0)` gives the UTC instant
/// (nothing out of chrono's range), `with_timezone(&chrono_tz::Asia::Jakarta)`
/// moves it to Jakarta, and `Datelike::year`/`month`/`day` read the date. The
/// contract names the result and adds what chrono shows: months run from 1
/// to 12 and days from 1 to the length of the month (a `NaiveDate` only holds
/// valid Gregorian dates, and `Datelike` documents the ranges), and
/// `from_timestamp` answers for every instant within 8 * 10^12 s of the epoch
/// (its day count stays inside `NaiveDate`'s years -262143..=262142).
#[verifier::external_body]
pub(crate) fn jakarta_date_of(ts: i64) -> (r: Option<(i32, u32, u32)>)
    ensures
        r == jakarta_date(ts),
        r matches Some((y, m, d)) ==> 1 <= m <= 12 && 1 <= d <= days_in_month(y as int, m as int),
        -8_000_000_000_000 <= ts <= 8_000_000_000_000 ==> r is Some,
{
    match chrono::DateTime::from_timestamp(ts, 0) {
        Some(t) => {
            let local = t.with_timezone(&chrono_tz::Asia::Jakarta);
            Some((local.year(), local.month(), local.day()))
        },
        None => None,
    }
}

/// The instant at which `y-m-d` starts in Jakarta.
///
/// Trusted: `TimeZone::with_ymd_and_hms(y, m, d, 0, 0, 0)` on
/// `chrono_tz::Asia::Jakarta`, kept where `single()` gives one instant, read
/// back as a Unix timestamp. The contract names the result and adds what
/// chrono's source shows: `NaiveDate::from_mdf` refuses a year outside
/// -262143..=262142 (`MIN_YEAR..=MAX_YEAR`), so a result only comes for such
/// a year. It also adds what chrono-tz's data for Asia/Jakarta shows (its
/// last change of offset is at the instant -189415800, when clocks went from
/// UTC+7:30 to UTC+7 for good; no local date before it is later than
/// 1963-12-31): for a date from
/// 1965 on, the day starts at the instant returned, that instant lies on that
/// date, every instant whose date is earlier comes before it, and every
/// instant on that date comes less than a day (86400 s) after it. Every
/// valid date from 1965 to chrono's last year 262142 has a midnight (a
/// single one, Jakarta keeping one offset), and every instant chrono holds
/// lies within 9 * 10^12 s of the epoch.
#[verifier::external_body]
pub(crate) fn jakarta_midnight_of(y: i32, m: u32, d: u32) -> (r: Option<i64>)
    ensures
        r == jakarta_midnight(y, m, d),
        r is Some ==> -262143 <= y <= 262142,
        1965 <= y <= 262142 && 1 <= m <= 12 && 1 <= d <= days_in_month(y as int, m as int)
            ==> r is Some,
        r matches Some(s) ==> -9_000_000_000_000 <= s <= 9_000_000_000_000,
        match r {
            Some(s) => y >= 1965 ==> jakarta_date(s) == Some((y, m, d)),
            None => true,
        },
        match r {
            Some(s) => y >= 1965 ==> forall|ts: i64|
                #[trigger] jakarta_date(ts) matches Some(dt) ==> ((date_before(dt, (y, m, d))
                    <==> ts < s) && (dt == (y, m, d) ==> ts < s + 86400)),
            None => true,
        },
{
    match chrono_tz::Asia::Jakarta.with_ymd_and_hms(y, m, d, 0, 0, 0).single() {
        Some(t) => Some(t.timestamp()),
        None => None,
    }
}

} // verus!

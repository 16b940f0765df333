//! Calendar arithmetic relied on from chrono: whole-day and
//! whole-microsecond differences between broken-down dates and datetimes.

use vstd::prelude::*;

verus! {

pub open spec fn is_leap_year(y: int) -> bool {
    (y % 4 == 0 && y % 100 != 0) || y % 400 == 0
}

pub open spec fn days_in_month(y: int, m: int) -> int {
    if m == 2 {
        if is_leap_year(y) {
            29
        } else {
            28
        }
    } else if m == 4 || m == 6 || m == 9 || m == 11 {
        30
    } else {
        31
    }
}

/// Whether `(y, m, d)` names a day of the proleptic Gregorian calendar.
pub open spec fn valid_ymd(y: int, m: int, d: int) -> bool {
    1 <= m <= 12 && 1 <= d <= days_in_month(y, m)
}

/// Whether the time-of-day fields are ones chrono accepts: nanoseconds
/// of 1_000_000_000 and above stand for a leap second, which exists
/// only on second 59.
pub open spec fn valid_hms_nano(h: int, mi: int, s: int, n: int) -> bool {
    &&& 0 <= h < 24 && 0 <= mi < 60 && 0 <= s < 60
    &&& 0 <= n < 2_000_000_000
    &&& (n >= 1_000_000_000 ==> s == 59)
}

/// The signed number of whole days from the second date to the first.
pub uninterp spec fn days_between_dates(
    y1: int,
    m1: int,
    d1: int,
    y2: int,
    m2: int,
    d2: int,
) -> i64;

/// The signed number of whole microseconds from the second datetime to
/// the first.
pub uninterp spec fn micros_between_datetimes(
    y1: int,
    m1: int,
    d1: int,
    h1: int,
    mi1: int,
    s1: int,
    n1: int,
    y2: int,
    m2: int,
    d2: int,
    h2: int,
    mi2: int,
    s2: int,
    n2: int,
) -> i64;

/// Relies on chrono::NaiveDate::from_ymd_opt and its Sub impl
/// (signed_duration_since) with TimeDelta::num_days: subtracting two
/// valid dates gives the exact whole-day difference, and a date minus
/// itself is zero days.
#[verifier::external_body]
pub(crate) fn date_difference_days(y1: i16, m1: u16, d1: u16, y2: i16, m2: u16, d2: u16) -> (r:
    i64)
    requires
        valid_ymd(y1 as int, m1 as int, d1 as int),
        valid_ymd(y2 as int, m2 as int, d2 as int),
    ensures
        r == days_between_dates(y1 as int, m1 as int, d1 as int, y2 as int, m2 as int, d2 as int),
        (y1 == y2 && m1 == m2 && d1 == d2) ==> r == 0,
{
    let a = chrono::NaiveDate::from_ymd_opt(y1 as i32, m1 as u32, d1 as u32).unwrap();
    let b = chrono::NaiveDate::from_ymd_opt(y2 as i32, m2 as u32, d2 as u32).unwrap();
    (a - b).num_days()
}

/// Relies on chrono::NaiveDate::and_hms_nano_opt and NaiveDateTime's Sub
/// impl with TimeDelta::num_microseconds: subtracting two valid datetimes
/// gives the whole-microsecond difference, and a datetime minus itself is
/// zero. With years from i16 the difference stays far below the
/// 2^63-microsecond overflow bound of num_microseconds.
#[verifier::external_body]
pub(crate) fn datetime_difference_micros(
    y1: i16,
    m1: u16,
    d1: u16,
    h1: u16,
    mi1: u16,
    s1: u16,
    n1: u32,
    y2: i16,
    m2: u16,
    d2: u16,
    h2: u16,
    mi2: u16,
    s2: u16,
    n2: u32,
) -> (r: i64)
    requires
        valid_ymd(y1 as int, m1 as int, d1 as int),
        valid_hms_nano(h1 as int, mi1 as int, s1 as int, n1 as int),
        valid_ymd(y2 as int, m2 as int, d2 as int),
        valid_hms_nano(h2 as int, mi2 as int, s2 as int, n2 as int),
    ensures
        r == micros_between_datetimes(
            y1 as int,
            m1 as int,
            d1 as int,
            h1 as int,
            mi1 as int,
            s1 as int,
            n1 as int,
            y2 as int,
            m2 as int,
            d2 as int,
            h2 as int,
            mi2 as int,
            s2 as int,
            n2 as int,
        ),
        (y1 == y2 && m1 == m2 && d1 == d2 && h1 == h2 && mi1 == mi2 && s1 == s2 && n1 == n2)
            ==> r == 0,
{
    let a = chrono::NaiveDate::from_ymd_opt(y1 as i32, m1 as u32, d1 as u32)
        .unwrap()
        .and_hms_nano_opt(h1 as u32, mi1 as u32, s1 as u32, n1)
        .unwrap();
    let b = chrono::NaiveDate::from_ymd_opt(y2 as i32, m2 as u32, d2 as u32)
        .unwrap()
        .and_hms_nano_opt(h2 as u32, mi2 as u32, s2 as u32, n2)
        .unwrap();
    (a - b).num_microseconds().unwrap()
}

} // verus!

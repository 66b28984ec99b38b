//! Civil dates in the reference timezone.
//!
//! A measurement belongs to the partition of the calendar date that its start
//! timestamp has in a fixed reference timezone (Europe/Vienna) — not the UTC
//! date, because the measured domain's day boundary is locally anchored. The
//! conversion from an instant to that local calendar date is the timezone
//! database's business and is taken on trust from chrono and chrono_tz; all
//! logic over the resulting dates is verified here.

use vstd::prelude::*;

use chrono::Datelike;

verus! {

use vstd::arithmetic::div_mod::lemma_mod_multiples_vanish;

/// The civil calendar date `(year, month, day)` that the reference timezone
/// assigns to an instant, given as microseconds since the Unix epoch, or
/// `None` where the instant lies outside the calendar's range. The date is a
/// function of the instant alone.
pub uninterp spec fn local_civil_ymd(micros: int) -> Option<(int, int, int)>;

/// Instants at most this far from the epoch are always within the calendar's
/// range (about 63,000 years, far inside the documented bound).
pub const CIVIL_SAFE_MICROS: i64 = 2_000_000_000_000_000_000;

/// The local civil date of an instant.
///
/// Relies on chrono's `DateTime::from_timestamp_micros`, which is documented
/// to return `None` only more than about 262,000 years away from the common
/// era, on `DateTime::with_timezone` with chrono_tz's `Europe::Vienna`, and
/// on the `Datelike` accessors `year`, `month` (1 to 12) and `day` (1 to 31).
#[verifier::external_body]
pub fn civil_ymd_of_micros(micros: i64) -> (r: Option<(i32, u32, u32)>)
    ensures
        r matches Some(ymd) ==> local_civil_ymd(micros as int) == Some(
            (ymd.0 as int, ymd.1 as int, ymd.2 as int),
        ),
        r is None ==> local_civil_ymd(micros as int) is None,
        -CIVIL_SAFE_MICROS <= micros <= CIVIL_SAFE_MICROS ==> r is Some,
        r matches Some(ymd) ==> 1 <= ymd.1 <= 12 && 1 <= ymd.2 <= 31,
{
    match chrono::DateTime::from_timestamp_micros(micros) {
        None => None,
        Some(instant) => {
            let local = instant.with_timezone(&chrono_tz::Europe::Vienna);
            Some((local.year(), local.month(), local.day()))
        },
    }
}

/// The current instant, as microseconds since the Unix epoch.
///
/// Relies on chrono's `Utc::now` and `timestamp_micros`; nothing is promised
/// of the value, callers must hold for every outcome.
#[verifier::external_body]
pub fn now_micros() -> i64 {
    chrono::Utc::now().timestamp_micros()
}

/// A civil calendar date in the reference timezone.
#[derive(Clone, Copy, PartialEq, Eq, Structural, Debug)]
pub struct CivilDate {
    pub year: i32,
    pub month: u32,
    pub day: u32,
}

impl CivilDate {
    /// The month and day lie in their calendar ranges.
    pub open spec fn valid(self) -> bool {
        1 <= self.month <= 12 && 1 <= self.day <= 31
    }

    /// The date as the key triple that `local_civil_ymd` yields.
    pub open spec fn key(self) -> (int, int, int) {
        (self.year as int, self.month as int, self.day as int)
    }
}

/// `a` falls strictly before `b` in the calendar: valid civil dates order
/// exactly as their `(year, month, day)` triples do lexicographically.
pub open spec fn date_lt(a: CivilDate, b: CivilDate) -> bool {
    a.year < b.year || (a.year == b.year && (a.month < b.month || (a.month == b.month && a.day
        < b.day)))
}

/// Whether date `a` falls strictly before date `b`.
pub fn date_is_before(a: CivilDate, b: CivilDate) -> (r: bool)
    ensures
        r == date_lt(a, b),
{
    if a.year != b.year {
        a.year < b.year
    } else if a.month != b.month {
        a.month < b.month
    } else {
        a.day < b.day
    }
}

/// `y` is a leap year of the Gregorian calendar.
pub open spec fn is_leap_year(y: int) -> bool {
    y % 4 == 0 && (y % 100 != 0 || y % 400 == 0)
}

/// How many days month `m` of year `y` has.
pub open spec fn days_in_month(y: int, m: int) -> int {
    if m == 2 {
        if is_leap_year(y) {
            29
        } else {
            28
        }
    } else if m == 4 || m == 6 || m == 9 || m == 11 {
        30
    } else {
        31
    }
}

/// Whether `y` is a leap year.
///
/// The leap rule is three divisibility tests; they are decided on the year
/// shifted by a fixed multiple of 400 into the non-negative range, where the
/// machine remainder agrees with the mathematical one.
fn leap_year(y: i32) -> (r: bool)
    ensures
        r == is_leap_year(y as int),
{
    let shifted: u64 = ((y as i64) + 2_147_484_000) as u64;
    proof {
        lemma_mod_multiples_vanish(536_871_000, y as int, 4);
        lemma_mod_multiples_vanish(21_474_840, y as int, 100);
        lemma_mod_multiples_vanish(5_368_710, y as int, 400);
    }
    shifted % 4 == 0 && (shifted % 100 != 0 || shifted % 400 == 0)
}

/// How many days month `m` of year `y` has.
fn month_length(y: i32, m: u32) -> (r: u32)
    ensures
        r as int == days_in_month(y as int, m as int),
        28 <= r <= 31,
{
    if m == 2 {
        if leap_year(y) {
            29
        } else {
            28
        }
    } else if m == 4 || m == 6 || m == 9 || m == 11 {
        30
    } else {
        31
    }
}

/// The calendar day before `(year, month, day)`.
pub open spec fn prev_civil(d: (int, int, int)) -> (int, int, int) {
    if d.2 > 1 {
        (d.0, d.1, d.2 - 1)
    } else if d.1 > 1 {
        (d.0, d.1 - 1, days_in_month(d.0, d.1 - 1))
    } else {
        (d.0 - 1, 12, 31)
    }
}

/// The calendar day `n` days before `(year, month, day)`.
pub open spec fn civil_minus_days(d: (int, int, int), n: nat) -> (int, int, int)
    decreases n,
{
    if n == 0 {
        d
    } else {
        prev_civil(civil_minus_days(d, (n - 1) as nat))
    }
}

/// Stepping back in the calendar never increases the year.
proof fn lemma_civil_minus_days_year_le(d: (int, int, int), i: nat, n: nat)
    requires
        i <= n,
    ensures
        civil_minus_days(d, n).0 <= civil_minus_days(d, i).0,
    decreases n,
{
    if i < n {
        lemma_civil_minus_days_year_le(d, i, (n - 1) as nat);
    }
}

/// The calendar date `days` days before `date`, or `None` where the year
/// would leave its machine range.
pub fn civil_date_minus_days(date: CivilDate, days: u64) -> (r: Option<CivilDate>)
    requires
        date.valid(),
    ensures
        r matches Some(c) ==> c.key() == civil_minus_days(date.key(), days as nat) && c.valid(),
        (r is Some) == (civil_minus_days(date.key(), days as nat).0 >= i32::MIN as int),
{
    let ghost d0 = date.key();
    let mut year: i32 = date.year;
    let mut month: u32 = date.month;
    let mut day: u32 = date.day;
    let mut i: u64 = 0;
    while i < days
        invariant
            i <= days,
            d0 == date.key(),
            (year as int, month as int, day as int) == civil_minus_days(d0, i as nat),
            1 <= month <= 12,
            1 <= day <= 31,
        decreases days - i,
    {
        proof {
            assert(civil_minus_days(d0, (i + 1) as nat) == prev_civil(
                civil_minus_days(d0, i as nat),
            ));
        }
        if day > 1 {
            day = day - 1;
        } else if month > 1 {
            month = month - 1;
            day = month_length(year, month);
        } else {
            if year == i32::MIN {
                proof {
                    assert(civil_minus_days(d0, (i + 1) as nat).0 == i32::MIN - 1);
                    lemma_civil_minus_days_year_le(d0, (i + 1) as nat, days as nat);
                }
                return None;
            }
            year = year - 1;
            month = 12;
            day = 31;
        }
        i = i + 1;
    }
    Some(CivilDate { year, month, day })
}

} // verus!

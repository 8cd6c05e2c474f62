//! Dates of records, to the millisecond, as numbers that rise with time.

use crate::time::{valid_date, Stamp};
use vstd::prelude::*;

verus! {

/// The milliseconds of a day.
pub const MS_ON_A_DAY: i64 = 86_400_000;

/// The days from the first of January 1970 to a day of the proleptic
/// Gregorian calendar; days before it count below zero.
pub open spec fn days_from_epoch(year: int, month: int, day: int) -> int {
    let y = if month <= 2 {
        year - 1
    } else {
        year
    };
    let era = y / 400;
    let year_of_era = y - era * 400;
    let month_from_march = if month > 2 {
        month - 3
    } else {
        month + 9
    };
    let day_of_year = (153 * month_from_march + 2) / 5 + day - 1;
    let day_of_era = year_of_era * 365 + year_of_era / 4 - year_of_era / 100 + day_of_year;
    era * 146097 + day_of_era - 719468
}

/// The milliseconds from the start of 1970 (UTC) to the given hour of the
/// given day.
pub open spec fn utc_millis(year: int, month: int, day: int, hour: int) -> int {
    (days_from_epoch(year, month, day) * 24 + hour) * 3_600_000
}

/// The days from the first of January 1970 to the first of March of a
/// year.
pub open spec fn march_first(year: int) -> int {
    days_from_epoch(year, 3, 1)
}

/// From one first of March to the next there are 365 days, or 366 where a
/// leap day lies between them.
pub proof fn lemma_year_step(year: int)
    ensures
        march_first(year + 1) - march_first(year) == (if crate::time::is_leap_year(year + 1) {
            366int
        } else {
            365int
        }),
{
    let era = year / 400;
    let place = year - era * 400;
    if place == 399 {
        assert((year + 1) / 400 == era + 1);
        assert((year + 1) % 400 == 0);
    } else {
        assert((year + 1) / 400 == era);
        assert((year + 1) % 400 == place + 1);
    }
}

/// A later first of March is more days from the first of January 1970.
pub proof fn lemma_years_rise(earlier: int, later: int)
    requires
        earlier <= later,
    ensures
        march_first(later) - march_first(earlier) >= 365 * (later - earlier),
    decreases later - earlier,
{
    if earlier < later {
        lemma_years_rise(earlier, later - 1);
        lemma_year_step(later - 1);
    }
}

/// The days of a valid date lie within the twelve months that begin with
/// the first of March before it.
pub proof fn lemma_days_within_year(year: int, month: int, day: int)
    requires
        1 <= month <= 12,
        1 <= day <= crate::time::days_in_month(year, month),
    ensures
        month > 2 ==> 0 <= days_from_epoch(year, month, day) - march_first(year) < 306,
        month <= 2 ==> 306 <= days_from_epoch(year, month, day) - march_first(year - 1)
            < march_first(year) - march_first(year - 1),
{
    if month <= 2 {
        lemma_year_step(year - 1);
    }
}

/// Of two hours of valid days, the later one is more milliseconds from the
/// start of 1970: the count orders hours as the calendar does.
pub proof fn law_later_hour_counts_more(
    year: int,
    month: int,
    day: int,
    hour: int,
    year2: int,
    month2: int,
    day2: int,
    hour2: int,
)
    requires
        1 <= month <= 12,
        1 <= day <= crate::time::days_in_month(year, month),
        0 <= hour < 24,
        1 <= month2 <= 12,
        1 <= day2 <= crate::time::days_in_month(year2, month2),
        0 <= hour2 < 24,
        year < year2 || (year == year2 && (month < month2 || (month == month2 && (day < day2 || (day
            == day2 && hour < hour2))))),
    ensures
        utc_millis(year, month, day, hour) < utc_millis(year2, month2, day2, hour2),
{
    lemma_days_within_year(year, month, day);
    lemma_days_within_year(year2, month2, day2);
    let from = if month <= 2 {
        year - 1
    } else {
        year
    };
    let from2 = if month2 <= 2 {
        year2 - 1
    } else {
        year2
    };
    if from < from2 {
        lemma_years_rise(from + 1, from2);
        lemma_year_step(from);
    }
    assert(days_from_epoch(year, month, day) <= days_from_epoch(year2, month2, day2));
}

/// Builds the hour with `chrono::NaiveDate::from_ymd_opt` and
/// `and_hms_opt`, which accept every day of the calendar and every hour of
/// a day, and reads `timestamp_millis` of it as a UTC time. Claimed: the
/// result is the count of milliseconds since the start of 1970 in the
/// proleptic Gregorian calendar, as [`utc_millis`] spells it out.
#[verifier::external_body]
fn chrono_millis(year: i32, month: u32, day: u32, hour: u32) -> (millis: i64)
    requires
        valid_date(year as int, month as int, day as int),
        hour < 24,
    ensures
        millis == utc_millis(year as int, month as int, day as int, hour as int),
{
    chrono::NaiveDate::from_ymd_opt(year, month, day).unwrap().and_hms_opt(
        hour,
        0,
        0,
    ).unwrap().and_utc().timestamp_millis()
}

/// A whole number of days: the quotient by the length of a day, rounded
/// towards zero.
pub open spec fn days_of(millis: int) -> int {
    if millis >= 0 {
        millis / (MS_ON_A_DAY as int)
    } else {
        -((-millis) / (MS_ON_A_DAY as int))
    }
}

/// A date in UTC.
#[derive(Debug, PartialEq, Eq, Clone, Copy, Structural)]
pub struct UtcDate {
    timespan: i64,
}

impl View for UtcDate {
    type V = i64;

    closed spec fn view(&self) -> i64 {
        self.timespan
    }
}

impl UtcDate {
    /// The given hour of the given day.
    pub fn ymdh(year: i32, month: u32, day: u32, hour: u32) -> (date: UtcDate)
        requires
            valid_date(year as int, month as int, day as int),
            hour < 24,
        ensures
            date@ == utc_millis(year as int, month as int, day as int, hour as int),
    {
        UtcDate { timespan: chrono_millis(year, month, day, hour) }
    }

    /// The given hour of the given day, if there is such a day and hour.
    pub fn try_ymdh(year: i32, month: u32, day: u32, hour: u32) -> (date: Option<UtcDate>)
        ensures
            match date {
                Some(d) => valid_date(year as int, month as int, day as int) && hour < 24 && d@
                    == utc_millis(year as int, month as int, day as int, hour as int),
                None => !(valid_date(year as int, month as int, day as int) && hour < 24),
            },
    {
        let stamp = Stamp { year, month, day, hour, minute: 0, second: 0, nanosecond: 0 };
        if stamp.is_valid() {
            Some(UtcDate::ymdh(year, month, day, hour))
        } else {
            None
        }
    }

    /// A number that is the same for all dates of one day, and that
    /// differs by one between a day and the next.
    pub fn day_hash(&self) -> (hash: i64)
        ensures
            hash == days_of(self@ as int),
    {
        if self.timespan >= 0 {
            self.timespan / MS_ON_A_DAY
        } else if self.timespan == i64::MIN {
            -106751991167
        } else {
            -((-self.timespan) / MS_ON_A_DAY)
        }
    }

    /// A number that rises with the date.
    pub fn date_hash(&self) -> (hash: i64)
        ensures
            hash == self@,
    {
        self.timespan
    }

    /// The date of a number that [`UtcDate::date_hash`] has given.
    pub fn from_hash(hash: i64) -> (date: UtcDate)
        ensures
            date@ == hash,
    {
        UtcDate { timespan: hash }
    }
}

} // verus!

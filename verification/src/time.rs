//! Instants of the UTC calendar with the precision of a snapshot's name.

use crate::error::ErrorKind;
use std::cmp::Ordering;
use vstd::prelude::*;

verus! {

/// The text form of an instant in a snapshot's file name.
pub const UTC_INSTANT_FORMAT: &'static str = "%Y_%m_%d %H_%M_%S";

/// First year that an instant can hold.
pub const MIN_YEAR: i32 = -262143;

/// Last year that an instant can hold.
pub const MAX_YEAR: i32 = 262142;

/// The calendar fields of an instant.
#[derive(Debug, Clone, Copy, PartialEq, Eq, Structural)]
pub struct Stamp {
    pub year: i32,
    pub month: u32,
    pub day: u32,
    pub hour: u32,
    pub minute: u32,
    pub second: u32,
    pub nanosecond: u32,
}

/// Leap years of the proleptic Gregorian calendar.
pub open spec fn is_leap_year(year: int) -> bool {
    year % 4 == 0 && (year % 100 != 0 || year % 400 == 0)
}

/// Number of days of a month, 0 for a month that does not exist.
pub open spec fn days_in_month(year: int, month: int) -> int {
    if month == 2 {
        if is_leap_year(year) {
            29
        } else {
            28
        }
    } else if month == 4 || month == 6 || month == 9 || month == 11 {
        30
    } else if 1 <= month <= 12 {
        31
    } else {
        0
    }
}

/// A day that exists in the calendar, in a year that an instant can hold.
pub open spec fn valid_date(year: int, month: int, day: int) -> bool {
    MIN_YEAR <= year <= MAX_YEAR && 1 <= month <= 12 && 1 <= day <= days_in_month(year, month)
}

/// A time of day. A leap second is written as second 59 with a
/// nanosecond of 1,000,000,000 or more.
pub open spec fn valid_time(hour: int, minute: int, second: int, nanosecond: int) -> bool {
    0 <= hour < 24 && 0 <= minute < 60 && 0 <= second < 60 && 0 <= nanosecond < 2_000_000_000 && (
    nanosecond >= 1_000_000_000 ==> second == 59)
}

impl Stamp {
    /// The fields name a day of the calendar and a time of that day.
    pub open spec fn valid(self) -> bool {
        valid_date(self.year as int, self.month as int, self.day as int) && valid_time(
            self.hour as int,
            self.minute as int,
            self.second as int,
            self.nanosecond as int,
        )
    }

    /// A number that rises with time: of two valid stamps, the later one
    /// has the greater rank (see [`lemma_rank_orders_fields`]).
    pub open spec fn rank(self) -> int {
        self.year * 71_884_800_000_000_000 + self.month * 5_529_600_000_000_000 + self.day
            * 172_800_000_000_000 + self.hour * 7_200_000_000_000 + self.minute * 120_000_000_000
            + self.second * 2_000_000_000 + self.nanosecond
    }

    /// `self` is earlier than `other`, going by year, month, day, hour,
    /// minute, second and nanosecond in turn.
    pub open spec fn earlier(self, other: Stamp) -> bool {
        self.year < other.year || (self.year == other.year && (self.month < other.month || (
        self.month == other.month && (self.day < other.day || (self.day == other.day && (self.hour
            < other.hour || (self.hour == other.hour && (self.minute < other.minute || (self.minute
            == other.minute && (self.second < other.second || (self.second == other.second
            && self.nanosecond < other.nanosecond)))))))))))
    }

    /// Midnight of the stamp's day.
    pub open spec fn date(self) -> Stamp {
        Stamp {
            year: self.year,
            month: self.month,
            day: self.day,
            hour: 0,
            minute: 0,
            second: 0,
            nanosecond: 0,
        }
    }

    /// Whether the fields name a day of the calendar and a time of that day.
    pub fn is_valid(&self) -> (valid: bool)
        ensures
            valid == self.valid(),
    {
        if self.year < MIN_YEAR || self.year > MAX_YEAR || self.month < 1 || self.month > 12 {
            return false;
        }
        let leap = self.year % 4 == 0 && (self.year % 100 != 0 || self.year % 400 == 0);
        let days: u32 = if self.month == 2 {
            if leap {
                29
            } else {
                28
            }
        } else if self.month == 4 || self.month == 6 || self.month == 9 || self.month == 11 {
            30
        } else {
            31
        };
        self.day >= 1 && self.day <= days && self.hour < 24 && self.minute < 60 && self.second < 60
            && self.nanosecond < 2_000_000_000 && (self.nanosecond < 1_000_000_000 || self.second
            == 59)
    }
}

/// Among valid stamps the rank orders as the fields do, and equal ranks
/// mean equal stamps.
pub proof fn lemma_rank_orders_fields(a: Stamp, b: Stamp)
    requires
        a.valid(),
        b.valid(),
    ensures
        a.earlier(b) <==> a.rank() < b.rank(),
        a.rank() == b.rank() <==> a == b,
{
    let a5 = a.second * 2_000_000_000 + a.nanosecond;
    let b5 = b.second * 2_000_000_000 + b.nanosecond;
    lemma_lex_step(a.second as int, b.second as int, a.nanosecond as int, b.nanosecond as int, 2_000_000_000);
    let a4 = a.minute * 120_000_000_000 + a5;
    let b4 = b.minute * 120_000_000_000 + b5;
    lemma_lex_step(a.minute as int, b.minute as int, a5, b5, 120_000_000_000);
    let a3 = a.hour * 7_200_000_000_000 + a4;
    let b3 = b.hour * 7_200_000_000_000 + b4;
    lemma_lex_step(a.hour as int, b.hour as int, a4, b4, 7_200_000_000_000);
    let a2 = a.day * 172_800_000_000_000 + a3;
    let b2 = b.day * 172_800_000_000_000 + b3;
    lemma_lex_step(a.day as int, b.day as int, a3, b3, 172_800_000_000_000);
    let a1 = a.month * 5_529_600_000_000_000 + a2;
    let b1 = b.month * 5_529_600_000_000_000 + b2;
    lemma_lex_step(a.month as int, b.month as int, a2, b2, 5_529_600_000_000_000);
    lemma_lex_step(a.year as int, b.year as int, a1, b1, 71_884_800_000_000_000);
    assert(a.rank() == a.year * 71_884_800_000_000_000 + a1);
    assert(b.rank() == b.year * 71_884_800_000_000_000 + b1);
}

/// Two numbers written as a leading digit and a rest below the base
/// compare by the digit first and by the rest second.
proof fn lemma_lex_step(x: int, y: int, p: int, q: int, base: int)
    requires
        0 <= p < base,
        0 <= q < base,
    ensures
        x * base + p < y * base + q <==> (x < y || (x == y && p < q)),
        x * base + p == y * base + q <==> (x == y && p == q),
{
    if x < y {
        assert(x * base + base <= y * base) by (nonlinear_arith)
            requires
                x + 1 <= y,
                base > 0,
        ;
    } else if y < x {
        assert(y * base + base <= x * base) by (nonlinear_arith)
            requires
                y + 1 <= x,
                base > 0,
        ;
    }
}

/// What `chrono::NaiveDateTime::parse_from_str` makes of a text under
/// [`UTC_INSTANT_FORMAT`]: the fields of the date and time it read, or
/// `None` where it reports an error.
pub uninterp spec fn parsed_utc(text: Seq<char>) -> Option<Stamp>;

/// The instant that a text spells: the fields that have been read from it,
/// where they name a day of the calendar and a time of that day.
pub open spec fn instant_of_text(text: Seq<char>) -> Option<Stamp> {
    match parsed_utc(text) {
        Some(stamp) => if stamp.valid() {
            Some(stamp)
        } else {
            None
        },
        None => None,
    }
}

/// The text that chrono's `format` writes for a date and time under
/// [`UTC_INSTANT_FORMAT`].
pub uninterp spec fn formatted_utc(stamp: Stamp) -> Seq<char>;

/// Calls `chrono::NaiveDateTime::parse_from_str(text, UTC_INSTANT_FORMAT)`
/// and reads the fields of its result through `Datelike` and `Timelike`.
/// Claimed: the result is the named function of the text.
#[verifier::external_body]
fn parse_utc(text: &str) -> (parsed: Option<Stamp>)
    ensures
        parsed == parsed_utc(text@),
{
    match chrono::NaiveDateTime::parse_from_str(text, UTC_INSTANT_FORMAT) {
        Ok(t) => Some(
            Stamp {
                year: chrono::Datelike::year(&t),
                month: chrono::Datelike::month(&t),
                day: chrono::Datelike::day(&t),
                hour: chrono::Timelike::hour(&t),
                minute: chrono::Timelike::minute(&t),
                second: chrono::Timelike::second(&t),
                nanosecond: chrono::Timelike::nanosecond(&t),
            },
        ),
        Err(_) => None,
    }
}

/// Builds the date and time with `chrono::NaiveDate::from_ymd_opt` and
/// `and_hms_nano_opt`, which accept every valid stamp, and writes it with
/// `format(UTC_INSTANT_FORMAT)`. Claimed: the text is the named function
/// of the fields.
#[verifier::external_body]
fn format_utc(stamp: Stamp) -> (text: String)
    requires
        stamp.valid(),
    ensures
        text@ == formatted_utc(stamp),
{
    chrono::NaiveDate::from_ymd_opt(stamp.year, stamp.month, stamp.day).unwrap().and_hms_nano_opt(
        stamp.hour,
        stamp.minute,
        stamp.second,
        stamp.nanosecond,
    ).unwrap().format(UTC_INSTANT_FORMAT).to_string()
}

/// Reads the clock with `chrono::Utc::now`, rounds to the whole second with
/// `round_subsecs(0)` and reads the fields. Claimed of every outcome: it is
/// a day of the calendar with a time of day.
#[verifier::external_body]
fn utc_now() -> (stamp: Stamp)
    ensures
        stamp.valid(),
{
    let t = chrono::SubsecRound::round_subsecs(chrono::Utc::now(), 0);
    Stamp {
        year: chrono::Datelike::year(&t),
        month: chrono::Datelike::month(&t),
        day: chrono::Datelike::day(&t),
        hour: chrono::Timelike::hour(&t),
        minute: chrono::Timelike::minute(&t),
        second: chrono::Timelike::second(&t),
        nanosecond: chrono::Timelike::nanosecond(&t),
    }
}

/// An instant of the UTC calendar. Its fields always name a day that
/// exists and a time of that day.
#[derive(Debug, Clone, Copy, PartialEq, Eq, Structural)]
pub struct Instant {
    stamp: Stamp,
}

impl View for Instant {
    type V = Stamp;

    closed spec fn view(&self) -> Stamp {
        self.stamp
    }
}

impl Instant {
    /// Every instant that a program holds is valid.
    #[verifier::type_invariant]
    pub open spec fn held(self) -> bool {
        self@.valid()
    }

    /// The instant of the given fields, if they name one.
    pub fn from_stamp(stamp: Stamp) -> (instant: Option<Instant>)
        ensures
            instant.is_some() == stamp.valid(),
            instant matches Some(i) ==> i@ == stamp,
    {
        if stamp.is_valid() {
            Some(Instant { stamp })
        } else {
            None
        }
    }

    /// The current instant, to the second.
    pub fn now() -> (instant: Instant)
        ensures
            instant@.valid(),
    {
        Instant { stamp: utc_now() }
    }

    /// Midnight of the given day.
    pub fn ymd(year: i32, month: u32, day: u32) -> (instant: Instant)
        requires
            valid_date(year as int, month as int, day as int),
        ensures
            instant@ == (Stamp { year, month, day, hour: 0, minute: 0, second: 0, nanosecond: 0 }),
    {
        Instant { stamp: Stamp { year, month, day, hour: 0, minute: 0, second: 0, nanosecond: 0 } }
    }

    /// The given second of the given day.
    pub fn ymd_hms(year: i32, month: u32, day: u32, hour: u32, min: u32, sec: u32) -> (instant:
        Instant)
        requires
            valid_date(year as int, month as int, day as int),
            hour < 24,
            min < 60,
            sec < 60,
        ensures
            instant@ == (Stamp {
                year,
                month,
                day,
                hour,
                minute: min,
                second: sec,
                nanosecond: 0,
            }),
    {
        Instant {
            stamp: Stamp { year, month, day, hour, minute: min, second: sec, nanosecond: 0 },
        }
    }

    /// Reads an instant from the text form used in file names. A text that
    /// does not parse is reported as corrupted data.
    pub fn from_utc(utc: &str) -> (instant: Result<Instant, Box<ErrorKind>>)
        ensures
            match instant {
                Ok(i) => instant_of_text(utc@) == Some(i@),
                Err(e) => instant_of_text(utc@).is_none() && *e == ErrorKind::DataIsCorrupted,
            },
    {
        match parse_utc(utc) {
            Some(stamp) => {
                if stamp.is_valid() {
                    Ok(Instant { stamp })
                } else {
                    Err(Box::new(ErrorKind::DataIsCorrupted))
                }
            },
            None => Err(Box::new(ErrorKind::DataIsCorrupted)),
        }
    }

    /// The text form used in file names.
    pub fn str(&self) -> (text: String)
        ensures
            text@ == formatted_utc(self@),
    {
        proof {
            use_type_invariant(self);
        }
        format_utc(self.stamp)
    }

    /// The year of the instant.
    pub fn year(&self) -> (year: i32)
        ensures
            year == self@.year,
    {
        self.stamp.year
    }

    /// The month of the instant, 1 to 12.
    pub fn month(&self) -> (month: u32)
        ensures
            month == self@.month,
    {
        self.stamp.month
    }

    /// The day of the month of the instant, from 1.
    pub fn day(&self) -> (day: u32)
        ensures
            day == self@.day,
    {
        self.stamp.day
    }

    /// The hour of the instant, 0 to 23.
    pub fn hour(&self) -> (hour: u32)
        ensures
            hour == self@.hour,
    {
        self.stamp.hour
    }

    /// The minute of the instant, 0 to 59.
    pub fn minute(&self) -> (minute: u32)
        ensures
            minute == self@.minute,
    {
        self.stamp.minute
    }

    /// The second of the instant, 0 to 59.
    pub fn second(&self) -> (second: u32)
        ensures
            second == self@.second,
    {
        self.stamp.second
    }

    /// Whether `self` is strictly earlier than `other`.
    pub fn is_before(&self, other: &Instant) -> (before: bool)
        ensures
            before == self@.earlier(other@),
            before == (self@.rank() < other@.rank()),
    {
        proof {
            use_type_invariant(self);
            use_type_invariant(other);
            lemma_rank_orders_fields(self@, other@);
        }
        let a = &self.stamp;
        let b = &other.stamp;
        if a.year != b.year {
            a.year < b.year
        } else if a.month != b.month {
            a.month < b.month
        } else if a.day != b.day {
            a.day < b.day
        } else if a.hour != b.hour {
            a.hour < b.hour
        } else if a.minute != b.minute {
            a.minute < b.minute
        } else if a.second != b.second {
            a.second < b.second
        } else {
            a.nanosecond < b.nanosecond
        }
    }

    /// The earlier of two instants.
    pub fn min(&self, other: &Instant) -> (earliest: Instant)
        ensures
            earliest == (if other@.earlier(self@) {
                *other
            } else {
                *self
            }),
    {
        if other.is_before(self) {
            *other
        } else {
            *self
        }
    }

    /// The later of two instants.
    pub fn max(&self, other: &Instant) -> (latest: Instant)
        ensures
            latest == (if self@.earlier(other@) {
                *other
            } else {
                *self
            }),
    {
        if self.is_before(other) {
            *other
        } else {
            *self
        }
    }

    /// Midnight of the instant's day.
    pub fn truncate_time(&self) -> (date: Instant)
        ensures
            date@ == self@.date(),
            !self@.earlier(date@),
    {
        proof {
            use_type_invariant(self);
        }
        Instant::ymd(self.stamp.year, self.stamp.month, self.stamp.day)
    }
}

impl vstd::std_specs::cmp::PartialOrdSpecImpl for Instant {
    open spec fn obeys_partial_cmp_spec() -> bool {
        true
    }

    open spec fn partial_cmp_spec(&self, other: &Instant) -> Option<Ordering> {
        if self@.earlier(other@) {
            Some(Ordering::Less)
        } else if other@.earlier(self@) {
            Some(Ordering::Greater)
        } else {
            Some(Ordering::Equal)
        }
    }
}

impl PartialOrd for Instant {
    fn partial_cmp(&self, other: &Instant) -> (order: Option<Ordering>) {
        if self.is_before(other) {
            Some(Ordering::Less)
        } else if other.is_before(self) {
            Some(Ordering::Greater)
        } else {
            Some(Ordering::Equal)
        }
    }
}

} // verus!

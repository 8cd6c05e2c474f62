//! Values filed under the days of their dates.
//!
//! Days are numbered from the first of January 2000, which is day 0.

use vstd::prelude::*;

verus! {

/// The number of a day.
pub type DayHash = i32;

/// The first day that a date map numbers. The years -4500 to 29000 lie
/// between the first day and the last.
pub const MIN_DAY: DayHash = -2_400_000;

/// The last day that a date map numbers.
pub const MAX_DAY: DayHash = 10_000_000;

/// Year, month, day and hour in UTC.
#[derive(Debug, PartialEq, Eq, Clone, Copy, Structural)]
pub struct UtcDate {
    pub year: i16,
    pub month: u8,
    pub day: u8,
    pub hour: u8,
}

/// The quotient of a division of integers as the machine computes it:
/// rounded towards zero.
pub open spec fn quotient(a: int, b: int) -> int
    recommends
        b > 0,
{
    if a >= 0 {
        a / b
    } else {
        -((-a) / b)
    }
}

/// The number of the day of a date, by the formula of the Julian day
/// number.
pub open spec fn day_number(year: int, month: int, day: int) -> int {
    let a = quotient(14 - month, 12);
    let y = year + 4800 - a;
    let m = month + 12 * a - 3;
    day + quotient(153 * m + 2, 5) + 365 * y + quotient(y, 4) - quotient(y, 100) + quotient(y, 400)
        - (32045 + 2451545)
}

/// Year, month and day of the day of a number, by the inverse formula of
/// the Julian day number.
pub open spec fn date_of_day(hash: int) -> (int, int, int) {
    let julian = hash + 2451545;
    let f = julian + 1401 + (((4 * julian + 274277) / 146097) * 3) / 4 - 38;
    let e = 4 * f + 3;
    let g = (e % 1461) / 4;
    let h = 5 * g + 2;
    let day = (h % 153) / 5 + 1;
    let month = ((h / 153 + 2) % 12) + 1;
    let year = (e / 1461) - 4716 + (12 + 2 - month) / 12;
    (year, month, day)
}

/// The date of the number of a day is that day: for every day of the
/// calendar from the year -4799 on, the two formulas undo each other.
pub proof fn law_day_number_read_back(year: int, month: int, day: int)
    requires
        -4799 <= year <= 32767,
        1 <= month <= 12,
        1 <= day <= crate::time::days_in_month(year, month),
    ensures
        date_of_day(day_number(year, month, day)) == (year, month, day),
{
    let a = quotient(14 - month, 12);
    let y = year + 4800 - a;
    let m = month + 12 * a - 3;
    assert(a == (if month <= 2 { 1int } else { 0int }));
    assert(0 <= m <= 11);
    let julian = day + (153 * m + 2) / 5 + 365 * y + y / 4 - y / 100 + y / 400 - 32045;
    assert(quotient(153 * m + 2, 5) == (153 * m + 2) / 5);
    assert(quotient(y, 4) == y / 4 && quotient(y, 100) == y / 100 && quotient(y, 400) == y / 400);
    assert(day_number(year, month, day) + 2451545 == julian);
    let century = y / 100;
    let within = y - 100 * century;
    let cycle = century / 4;
    let place = century - 4 * cycle;
    assert(y / 400 == cycle);
    assert(y / 4 == 25 * century + within / 4);
    let day_of_year = (153 * m + 2) / 5 + day - 1;
    assert(0 <= day_of_year <= 365);
    let day_of_century = 365 * within + within / 4 + day_of_year;
    assert(julian == 36524 * century + cycle + day_of_century + 1 - 32045);
    assert(day_of_century == 36524 ==> place == 3) by {
        if day_of_century == 36524 {
            assert(within == 99 && day_of_year == 365);
            assert(m == 11 && day == 29);
            assert(crate::time::is_leap_year(year));
            assert(y + 1 == year + 4800);
            assert((y + 1) % 100 == 0);
            assert(year % 100 == 0);
            assert(year % 400 == 0);
        }
    }
    assert(0 <= day_of_century <= 36524);
    let turns = (4 * julian + 274277) / 146097;
    assert(4 * julian + 274277 == 146097 * (century + 1) + (4 * day_of_century + 4 - place));
    assert(turns == century + 1 + (if day_of_century == 36524 { 1int } else { 0int }));
    assert((turns * 3) / 4 == century - cycle);
    let f = julian + 1401 + (turns * 3) / 4 - 38;
    assert(f == 365 * y + y / 4 + day_of_year - 30681);
    let e = 4 * f + 3;
    let quarter = y - 4 * (y / 4);
    assert(day_of_year == 365 ==> quarter == 3) by {
        if day_of_year == 365 {
            assert(m == 11 && day == 29);
            assert(crate::time::is_leap_year(year));
            assert(y + 1 == year + 4800);
            assert(year % 4 == 0);
        }
    }
    assert(e == 1461 * (y - 84) + (4 * day_of_year + 3 - quarter));
    assert(e / 1461 == y - 84);
    assert(e % 1461 == 4 * day_of_year + 3 - quarter);
    assert((e % 1461) / 4 == day_of_year);
    let h = 5 * day_of_year + 2;
    assert(h / 153 == m);
    assert((h % 153) / 5 + 1 == day);
}

impl UtcDate {
    /// The date of the given fields.
    pub fn utc_ymdh(year: i16, month: u8, day: u8, hour: u8) -> (date: UtcDate)
        ensures
            date == (UtcDate { year, month, day, hour }),
    {
        UtcDate { year, month, day, hour }
    }

    /// The number of the date's day, with 2000/1/1 being 0.
    pub fn day_hash(&self) -> (hash: DayHash)
        ensures
            hash == day_number(self.year as int, self.month as int, self.day as int),
    {
        let a: i32 = (14 - self.month as i32) / 12;
        let y: i32 = self.year as i32 + 4800 - a;
        let m: i32 = self.month as i32 + 12 * a - 3;
        let d: i32 = self.day as i32;
        d + (153 * m + 2) / 5 + 365 * y + y / 4 - y / 100 + y / 400 - (32045 + 2451545)
    }

    /// The date of the given hour of the day of a number.
    pub fn from_day_hash(hash: DayHash, hour: u8) -> (date: UtcDate)
        requires
            MIN_DAY <= hash <= MAX_DAY,
        ensures
            (date.year as int, date.month as int, date.day as int) == date_of_day(hash as int),
            date.hour == hour,
            1 <= date.month <= 12,
            1 <= date.day <= 31,
    {
        let julian: i32 = hash + 2451545;
        let f: i32 = julian + 1401 + (((4 * julian + 274277) / 146097) * 3) / 4 - 38;
        let e: i32 = 4 * f + 3;
        let g: i32 = (e % 1461) / 4;
        let h: i32 = 5 * g + 2;
        let day: i32 = (h % 153) / 5 + 1;
        let month: i32 = ((h / 153 + 2) % 12) + 1;
        let year: i32 = (e / 1461) - 4716 + (12 + 2 - month) / 12;
        UtcDate { year: year as i16, month: month as u8, day: day as u8, hour }
    }
}

/// Values filed under days. The days run from the day of the first value
/// on, and each holds its values in the order in which they came, with
/// their hours.
pub struct DateMap<T> {
    first_day_hash: DayHash,
    days: Vec<Vec<(u8, T)>>,
}

/// A date with a borrowed value.
pub struct DateMapItem<'a, T> {
    pub date: UtcDate,
    pub data: &'a T,
}

/// The hours and values of some days as one list, day after day, each
/// with the number of its day.
pub open spec fn filed<T>(days: Seq<Vec<(u8, T)>>, first: int) -> Seq<(int, u8, T)>
    decreases days.len(),
{
    if days.len() == 0 {
        Seq::empty()
    } else {
        filed(days.drop_last(), first) + days.last()@.map_values(
            |e: (u8, T)| (first + days.len() - 1, e.0, e.1),
        )
    }
}

impl<T> DateMap<T> {
    /// The number of the first day; 0 while the map is empty.
    pub closed spec fn first_day(&self) -> int {
        self.first_day_hash as int
    }

    /// The days of the map, each with the hours and values filed under it.
    pub closed spec fn days(&self) -> Seq<Vec<(u8, T)>> {
        self.days@
    }

    /// The values of the map with the numbers of their days and their
    /// hours, by rising day, in the order in which they came.
    pub open spec fn entries(&self) -> Seq<(int, u8, T)> {
        filed(self.days(), self.first_day())
    }

    /// The days of the map are days that can be numbered.
    pub open spec fn wf(&self) -> bool {
        &&& MIN_DAY <= self.first_day()
        &&& self.first_day() + self.days().len() <= MAX_DAY + 1
        &&& self.first_day() == 0 || self.days().len() > 0
    }

    /// A map without values.
    pub fn new() -> (map: Self)
        ensures
            map.wf(),
            map.first_day() == 0,
            map.days().len() == 0,
    {
        Self { first_day_hash: 0, days: Vec::new() }
    }

    /// Whether a value of the given day can be filed: the day is not
    /// before the first day of the map.
    pub open spec fn takes(&self, day: int) -> bool {
        MIN_DAY <= day <= MAX_DAY && (self.first_day() != 0 ==> self.first_day() <= day) && (
        self.first_day() == 0 ==> day + self.days().len() <= MAX_DAY + 1)
    }

    /// Files a value under its date. The first value sets the first day
    /// of the map, unless its day is day 0.
    pub fn push(&mut self, date: UtcDate, data: T)
        requires
            old(self).wf(),
            old(self).takes(day_number(date.year as int, date.month as int, date.day as int)),
        ensures
            final(self).wf(),
            final(self).first_day() == (if old(self).first_day() == 0 {
                day_number(date.year as int, date.month as int, date.day as int)
            } else {
                old(self).first_day()
            }),
            final(self).days().len() == (if old(self).days().len() > day_number(
                date.year as int,
                date.month as int,
                date.day as int,
            ) - final(self).first_day() {
                old(self).days().len() as int
            } else {
                day_number(date.year as int, date.month as int, date.day as int) - final(self).first_day() + 1
            }),
            forall|k: int|
                0 <= k < final(self).days().len() ==> (#[trigger] final(self).days()[k])@ == (if k
                    == day_number(date.year as int, date.month as int, date.day as int) - final(self).first_day() {
                    (if k < old(self).days().len() {
                        old(self).days()[k]@
                    } else {
                        Seq::empty()
                    }).push((date.hour, data))
                } else if k < old(self).days().len() {
                    old(self).days()[k]@
                } else {
                    Seq::empty()
                }),
    {
        let day_index = self.expand_to_day(date.day_hash());
        let ghost before = self.days@;
        let mut day = Vec::new();
        std::mem::swap(&mut day, &mut self.days[day_index]);
        day.push((date.hour, data));
        self.days.set(day_index, day);
        proof {
            assert forall|k: int| 0 <= k < self.days@.len() && k != day_index implies (
            #[trigger] self.days@[k]) == before[k] by {}
        }
    }

    /// Makes sure that the map has the day of a number and returns the
    /// place of that day.
    fn expand_to_day(&mut self, date_hash: DayHash) -> (day_index: usize)
        requires
            old(self).wf(),
            old(self).takes(date_hash as int),
        ensures
            final(self).wf(),
            final(self).first_day() == (if old(self).first_day() == 0 {
                date_hash as int
            } else {
                old(self).first_day()
            }),
            day_index == date_hash - final(self).first_day(),
            day_index < final(self).days().len(),
            final(self).days().len() == (if old(self).days().len() > day_index {
                old(self).days().len()
            } else {
                (day_index + 1) as nat
            }),
            forall|k: int|
                0 <= k < old(self).days().len() ==> (#[trigger] final(self).days()[k]) == old(self).days()[k],
            forall|k: int|
                old(self).days().len() <= k < final(self).days().len() ==> (#[trigger] final(self).days()[k])@.len() == 0,
    {
        if self.first_day_hash == 0 {
            self.first_day_hash = date_hash;
        }
        let day_index = (date_hash - self.first_day_hash) as usize;
        // create days if they don't exist
        while self.days.len() < day_index + 1
            invariant
                self.first_day_hash == (if old(self).first_day() == 0 {
                    date_hash
                } else {
                    old(self).first_day_hash
                }),
                day_index == date_hash - self.first_day_hash,
                MIN_DAY <= self.first_day_hash,
                date_hash <= MAX_DAY,
                old(self).days@.len() <= self.days@.len(),
                self.days@.len() <= day_index + 1 || self.days@.len() == old(self).days@.len(),
                self.first_day_hash + old(self).days@.len() <= MAX_DAY + 1,
                forall|k: int|
                    0 <= k < old(self).days@.len() ==> (#[trigger] self.days@[k]) == old(self).days@[k],
                forall|k: int|
                    old(self).days@.len() <= k < self.days@.len() ==> (#[trigger] self.days@[k])@.len()
                        == 0,
            decreases day_index + 1 - self.days.len(),
        {
            self.days.push(Vec::new());
        }
        day_index
    }

    /// A cursor over the values of the map, by rising day.
    pub fn iter(&self) -> (iter: DateMapIter<'_, T>)
        requires
            self.wf(),
        ensures
            iter.wf(),
            iter.remaining() == self.entries(),
    {
        proof {
            lemma_filed_split(self.days@, self.first_day_hash as int, 0);
            assert(self.days@.take(0) =~= Seq::empty());
            assert(Seq::<(int, u8, T)>::empty() + filed_from(
                self.days@,
                self.first_day_hash as int,
                0,
                0,
            ) =~= filed_from(self.days@, self.first_day_hash as int, 0, 0));
        }
        DateMapIter { datemap: self, index: (0, 0) }
    }
}

/// The hours and values from place `at` of day `day` on.
pub open spec fn filed_from<T>(days: Seq<Vec<(u8, T)>>, first: int, day: int, at: int) -> Seq<
    (int, u8, T),
>
    decreases days.len() - day,
{
    if day >= days.len() || day < 0 {
        Seq::empty()
    } else {
        days[day]@.map_values(|e: (u8, T)| (first + day, e.0, e.1)).skip(at) + filed_from(
            days,
            first,
            day + 1,
            0,
        )
    }
}

proof fn lemma_filed_split<T>(days: Seq<Vec<(u8, T)>>, first: int, day: int)
    requires
        0 <= day <= days.len(),
    ensures
        filed(days, first) == filed(days.take(day), first) + filed_from(days, first, day, 0),
    decreases days.len() - day,
{
    if day == days.len() {
        assert(days.take(day) =~= days);
        assert(filed(days, first) + Seq::<(int, u8, T)>::empty() =~= filed(days, first));
    } else {
        lemma_filed_split(days, first, day + 1);
        let longer = days.take(day + 1);
        assert(longer.drop_last() =~= days.take(day));
        assert(longer.last() == days[day]);
        let here = days[day]@.map_values(|e: (u8, T)| (first + day, e.0, e.1));
        assert(here.skip(0) =~= here);
        assert(filed(longer, first) == filed(days.take(day), first) + here);
        assert((filed(days.take(day), first) + here) + filed_from(days, first, day + 1, 0)
            =~= filed(days.take(day), first) + (here + filed_from(days, first, day + 1, 0)));
    }
}

/// Cursor over the values of a date map.
pub struct DateMapIter<'a, T> {
    datemap: &'a DateMap<T>,
    index: (usize, usize),
}

impl<'a, T> DateMapIter<'a, T> {
    /// The cursor stands inside a consistent map.
    pub closed spec fn wf(&self) -> bool {
        &&& self.datemap.wf()
        &&& self.index.0 <= self.datemap.days@.len()
        &&& self.index.0 < self.datemap.days@.len() ==> self.index.1
            <= self.datemap.days@[self.index.0 as int]@.len()
        &&& self.index.0 == self.datemap.days@.len() ==> self.index.1 == 0
    }

    /// What the cursor has still to yield: numbers of days, hours and
    /// values.
    pub closed spec fn remaining(&self) -> Seq<(int, u8, T)> {
        filed_from(
            self.datemap.days@,
            self.datemap.first_day_hash as int,
            self.index.0 as int,
            self.index.1 as int,
        )
    }

    /// The next value with its date, or `None` at the end.
    pub fn next(&mut self) -> (item: Option<DateMapItem<'a, T>>)
        requires
            old(self).wf(),
        ensures
            final(self).wf(),
            match item {
                Some(it) => {
                    let head = old(self).remaining()[0];
                    &&& old(self).remaining().len() > 0
                    &&& (it.date.year as int, it.date.month as int, it.date.day as int)
                        == date_of_day(head.0)
                    &&& it.date.hour == head.1
                    &&& *it.data == head.2
                    &&& final(self).remaining() == old(self).remaining().drop_first()
                },
                None => old(self).remaining().len() == 0 && final(self).remaining().len() == 0,
            },
    {
        let ghost days = self.datemap.days@;
        let ghost first = self.datemap.first_day_hash as int;
        while self.index.0 < self.datemap.days.len()
            invariant
                self.wf(),
                self.datemap == old(self).datemap,
                days == self.datemap.days@,
                first == self.datemap.first_day_hash,
                self.remaining() == old(self).remaining(),
            decreases days.len() - self.index.0,
        {
            let day = &self.datemap.days[self.index.0];
            let ghost here = day@.map_values(|e: (u8, T)| (first + self.index.0, e.0, e.1));
            if self.index.1 < day.len() {
                let at = self.index.1;
                self.index.1 = at + 1;
                proof {
                    assert(here.skip(at as int)[0] == here[at as int]);
                    assert(here.skip(at as int).drop_first() =~= here.skip(at + 1));
                    let rest = filed_from(days, first, self.index.0 + 1, 0);
                    assert((here.skip(at as int) + rest).drop_first() =~= here.skip(at + 1) + rest);
                    assert((here.skip(at as int) + rest)[0] == here[at as int]);
                }
                return Some(
                    DateMapItem {
                        date: UtcDate::from_day_hash(
                            self.index.0 as DayHash + self.datemap.first_day_hash,
                            day[at].0,
                        ),
                        data: &day[at].1,
                    },
                );
            }
            proof {
                assert(here.skip(self.index.1 as int) =~= Seq::empty());
                assert(Seq::<(int, u8, T)>::empty() + filed_from(days, first, self.index.0 + 1, 0)
                    =~= filed_from(days, first, self.index.0 + 1, 0));
            }
            self.index.1 = 0;
            self.index.0 += 1;
        }
        None
    }
}

} // verus!

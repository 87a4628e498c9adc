//! Report windows: where the current day, week, month or year begins.
//!
//! Times are whole seconds since 1970-01-01 00:00:00 UTC, and the calendar
//! is the Gregorian one, so a day has 86400 seconds.

use vstd::prelude::*;

verus! {

/// The span of time that a report looks back over.
#[derive(Clone, Copy, Debug, PartialEq, Eq)]
pub enum InfoPeriod {
    /// From the start of the current day.
    Day,
    /// From the start of the day six days before the current one: the last
    /// seven days, today included.
    Week,
    /// From the start of the current calendar month.
    Month,
    /// From the start of the current calendar year.
    Year,
}

impl Default for InfoPeriod {
    /// A report that names no period is a report of the day.
    fn default() -> (period: InfoPeriod)
        ensures
            period == InfoPeriod::Day,
    {
        InfoPeriod::Day
    }
}

pub const SECONDS_PER_DAY: i64 = 86400;

/// The days of 400 years in a row, wherever they begin.
pub const DAYS_PER_400_YEARS: i64 = 146097;

/// The word for a period.
pub open spec fn period_word(period: InfoPeriod) -> Seq<char> {
    match period {
        InfoPeriod::Day => seq!['d', 'a', 'y'],
        InfoPeriod::Week => seq!['w', 'e', 'e', 'k'],
        InfoPeriod::Month => seq!['m', 'o', 'n', 't', 'h'],
        InfoPeriod::Year => seq!['y', 'e', 'a', 'r'],
    }
}

/// The year has a 29th of February.
pub open spec fn is_leap_year(year: int) -> bool {
    year % 4 == 0 && (year % 100 != 0 || year % 400 == 0)
}

/// The number of days in a year.
pub open spec fn days_in_year(year: int) -> int {
    if is_leap_year(year) {
        366
    } else {
        365
    }
}

/// The number of days in a month of a year; months count from 1.
pub open spec fn days_in_month(year: int, month: int) -> int {
    if month == 2 {
        if is_leap_year(year) {
            29
        } else {
            28
        }
    } else if month == 4 || month == 6 || month == 9 || month == 11 {
        30
    } else {
        31
    }
}

/// Counts whole years off `days`, beginning with `year`: the year that day
/// number `days` of `year` falls in, and the day's number within that year.
/// Days count from 0.
pub open spec fn split_years(year: int, days: int) -> (int, int)
    decreases days,
{
    if days < days_in_year(year) {
        (year, days)
    } else {
        split_years(year + 1, days - days_in_year(year))
    }
}

/// Counts whole months off `days`, beginning with `month`: the month that
/// day number `days` of `month` falls in, and the day's number within that
/// month. Days count from 0, months from 1.
pub open spec fn split_months(year: int, month: int, days: int) -> (int, int)
    decreases 12 - month,
{
    if month >= 12 || days < days_in_month(year, month) {
        (month, days)
    } else {
        split_months(year, month + 1, days - days_in_month(year, month))
    }
}

/// How many days of its year lie before day `day`; days count from
/// 1970-01-01, which is day 0.
pub open spec fn day_of_year(day: int) -> int {
    split_years(1970, day).1
}

/// How many days of its month lie before day `day`.
pub open spec fn day_of_month(day: int) -> int {
    split_months(split_years(1970, day).0, 1, split_years(1970, day).1).1
}

/// The time at which the window of `period` opens for a report made at
/// `now`.
pub open spec fn window_opens(period: InfoPeriod, now: int) -> int {
    let day = now / 86400;
    match period {
        InfoPeriod::Day => day * 86400,
        InfoPeriod::Week => (day - 6) * 86400,
        InfoPeriod::Month => (day - day_of_month(day)) * 86400,
        InfoPeriod::Year => (day - day_of_year(day)) * 86400,
    }
}

/// The days of `count` years in a row, beginning with `year`.
pub open spec fn days_in_years(year: int, count: int) -> int
    decreases count,
{
    if count <= 0 {
        0
    } else {
        days_in_year(year) + days_in_years(year + 1, count - 1)
    }
}

/// The number of leap years before `year`, counted from a year 1.
pub open spec fn leap_years_before(year: int) -> int {
    (year - 1) / 4 - (year - 1) / 100 + (year - 1) / 400
}

/// One year more has one leap year more before it exactly where the year
/// itself is a leap year.
pub proof fn lemma_leap_years_step(year: int)
    ensures
        leap_years_before(year + 1) == leap_years_before(year) + if is_leap_year(year) {
            1int
        } else {
            0int
        },
{
    let by_4: int = if year % 4 == 0 {
        1
    } else {
        0
    };
    let by_100: int = if year % 100 == 0 {
        1
    } else {
        0
    };
    let by_400: int = if year % 400 == 0 {
        1
    } else {
        0
    };
    assert(year / 4 == (year - 1) / 4 + by_4);
    assert(year / 100 == (year - 1) / 100 + by_100);
    assert(year / 400 == (year - 1) / 400 + by_400);
    assert(year % 100 == 0 ==> year % 4 == 0) by {
        assert(year == 100 * (year / 100) + year % 100);
        assert(100 * (year / 100) == 4 * (25 * (year / 100)));
    }
    assert(year % 400 == 0 ==> year % 100 == 0) by {
        assert(year == 400 * (year / 400) + year % 400);
        assert(400 * (year / 400) == 100 * (4 * (year / 400)));
    }
}

/// A run of years has 365 days for each and one more for each leap year
/// among them.
pub proof fn lemma_days_in_years(year: int, count: int)
    requires
        0 <= count,
    ensures
        days_in_years(year, count) == 365 * count + leap_years_before(year + count)
            - leap_years_before(year),
    decreases count,
{
    if count > 0 {
        lemma_days_in_years(year + 1, count - 1);
        lemma_leap_years_step(year);
    }
}

/// Any 400 years in a row have 146097 days.
pub proof fn lemma_days_in_400_years(year: int)
    ensures
        days_in_years(year, 400) == 146097,
{
    lemma_days_in_years(year, 400);
    assert((year + 399) / 4 == (year - 1) / 4 + 100);
    assert((year + 399) / 100 == (year - 1) / 100 + 4);
    assert((year + 399) / 400 == (year - 1) / 400 + 1);
}

/// Whole years may be counted off at once.
pub proof fn lemma_split_years_skips(year: int, days: int, count: int)
    requires
        0 <= count,
        days_in_years(year, count) <= days,
    ensures
        split_years(year, days) == split_years(year + count, days - days_in_years(year, count)),
    decreases count,
{
    if count > 0 {
        lemma_days_in_years(year + 1, count - 1);
        lemma_split_years_skips(year + 1, days - days_in_year(year), count - 1);
    }
}

/// Whole runs of 400 years may be counted off at once.
pub proof fn lemma_split_years_skips_cycles(year: int, days: int, cycles: int)
    requires
        0 <= cycles,
        146097 * cycles <= days,
    ensures
        split_years(year, days) == split_years(year + 400 * cycles, days - 146097 * cycles),
    decreases cycles,
{
    if cycles > 0 {
        lemma_days_in_400_years(year);
        lemma_split_years_skips(year, days, 400);
        lemma_split_years_skips_cycles(year + 400, days - 146097, cycles - 1);
    }
}

/// Counting whole years off a day number that is not negative ends in a
/// year not before the first and on a day of that year.
pub proof fn lemma_split_years_bounds(year: int, days: int)
    requires
        0 <= days,
    ensures
        year <= split_years(year, days).0,
        0 <= split_years(year, days).1 < days_in_year(split_years(year, days).0),
        split_years(year, days).1 <= days,
    decreases days,
{
    if days >= days_in_year(year) {
        lemma_split_years_bounds(year + 1, days - days_in_year(year));
    }
}

/// The days of a year from the first of `month` to the end of the year.
pub open spec fn days_from_month(year: int, month: int) -> int
    decreases 13 - month,
{
    if month > 12 {
        0
    } else {
        days_in_month(year, month) + days_from_month(year, month + 1)
    }
}

/// The months of a year have the days of the year between them.
pub proof fn lemma_months_make_the_year(year: int)
    ensures
        days_from_month(year, 1) == days_in_year(year),
{
    reveal_with_fuel(days_from_month, 13);
}

/// Counting whole months off a day of the year ends in one of the twelve
/// months and on a day of that month.
pub proof fn lemma_split_months_bounds(year: int, month: int, days: int)
    requires
        1 <= month <= 12,
        0 <= days < days_from_month(year, month),
    ensures
        month <= split_months(year, month, days).0 <= 12,
        0 <= split_months(year, month, days).1 < days_in_month(
            year,
            split_months(year, month, days).0,
        ),
        split_months(year, month, days).1 <= days,
    decreases 12 - month,
{
    if month == 12 {
        assert(days_from_month(year, 13) == 0);
    } else if days >= days_in_month(year, month) {
        lemma_split_months_bounds(year, month + 1, days - days_in_month(year, month));
    }
}

/// Days earlier in the same year are days of the same year: going back by
/// no more than the day's number within its year changes that number alone.
pub proof fn lemma_split_years_back(year: int, days: int, back: int)
    requires
        0 <= back <= split_years(year, days).1,
        0 <= days,
    ensures
        split_years(year, days - back) == (
            split_years(year, days).0,
            split_years(year, days).1 - back,
        ),
    decreases days,
{
    if days >= days_in_year(year) {
        lemma_split_years_bounds(year + 1, days - days_in_year(year));
        lemma_split_years_back(year + 1, days - days_in_year(year), back);
    }
}

/// Days earlier in the same month are days of the same month.
pub proof fn lemma_split_months_back(year: int, month: int, days: int, back: int)
    requires
        1 <= month <= 12,
        0 <= days < days_from_month(year, month),
        0 <= back <= split_months(year, month, days).1,
    ensures
        split_months(year, month, days - back) == (
            split_months(year, month, days).0,
            split_months(year, month, days).1 - back,
        ),
    decreases 12 - month,
{
    if month < 12 && days >= days_in_month(year, month) {
        lemma_split_months_bounds(year, month + 1, days - days_in_month(year, month));
        lemma_split_months_back(year, month + 1, days - days_in_month(year, month), back);
    }
}

/// The window of a year opens on the first day of the year that `now` lies
/// in, and the window of a month on the first day of the month that `now`
/// lies in.
pub proof fn lemma_window_opens_on_a_first(now: int)
    requires
        0 <= now,
    ensures
        split_years(1970, window_opens(InfoPeriod::Year, now) / 86400) == (
            split_years(1970, now / 86400).0,
            0int,
        ),
        split_years(1970, window_opens(InfoPeriod::Month, now) / 86400).0 == split_years(
            1970,
            now / 86400,
        ).0,
        day_of_month(window_opens(InfoPeriod::Month, now) / 86400) == 0,
        split_months(
            split_years(1970, now / 86400).0,
            1,
            day_of_year(window_opens(InfoPeriod::Month, now) / 86400),
        ).0 == split_months(split_years(1970, now / 86400).0, 1, day_of_year(now / 86400)).0,
{
    let day = now / 86400;
    let year = split_years(1970, day).0;
    let in_year = split_years(1970, day).1;
    lemma_split_years_bounds(1970, day);
    lemma_split_years_back(1970, day, in_year);
    assert(window_opens(InfoPeriod::Year, now) / 86400 == day - in_year);
    lemma_months_make_the_year(year);
    lemma_split_months_bounds(year, 1, in_year);
    let in_month = split_months(year, 1, in_year).1;
    assert(in_month == day_of_month(day));
    lemma_split_years_back(1970, day, in_month);
    lemma_split_months_back(year, 1, in_year, in_month);
    assert(window_opens(InfoPeriod::Month, now) / 86400 == day - in_month);
}

/// A window opens at the start of a day and not after `now`; it opens less
/// than a day before `now` for a day, less than seven days for a week, less
/// than 31 days for a month and less than 366 days for a year.
pub proof fn lemma_window_is_recent(period: InfoPeriod, now: int)
    requires
        0 <= now,
    ensures
        window_opens(period, now) % 86400 == 0,
        window_opens(period, now) <= now,
        now - window_opens(period, now) < match period {
            InfoPeriod::Day => 86400int,
            InfoPeriod::Week => 7 * 86400int,
            InfoPeriod::Month => 31 * 86400int,
            InfoPeriod::Year => 366 * 86400int,
        },
{
    let day = now / 86400;
    let year = split_years(1970, day).0;
    let in_year = split_years(1970, day).1;
    lemma_split_years_bounds(1970, day);
    lemma_months_make_the_year(year);
    lemma_split_months_bounds(year, 1, in_year);
}

/// Whether the year has a 29th of February.
fn leap_year(year: i64) -> (leap: bool)
    requires
        0 <= year,
    ensures
        leap == is_leap_year(year as int),
{
    year % 4 == 0 && (year % 100 != 0 || year % 400 == 0)
}

/// The number of days in a year.
fn year_length(year: i64) -> (days: i64)
    requires
        0 <= year,
    ensures
        days == days_in_year(year as int),
{
    if leap_year(year) {
        366
    } else {
        365
    }
}

/// The number of days in a month of a year.
fn month_length(year: i64, month: i64) -> (days: i64)
    requires
        0 <= year,
    ensures
        days == days_in_month(year as int, month as int),
{
    if month == 2 {
        if leap_year(year) {
            29
        } else {
            28
        }
    } else if month == 4 || month == 6 || month == 9 || month == 11 {
        30
    } else {
        31
    }
}

/// How many days of its year lie before day `day`, and which year that is.
fn year_and_day(day: i64) -> (found: (i64, i64))
    requires
        0 <= day,
    ensures
        (found.0 as int, found.1 as int) == split_years(1970, day as int),
        0 <= found.1 <= day,
        1970 <= found.0,
{
    let cycles: i64 = day / DAYS_PER_400_YEARS;
    let mut rest: i64 = day % DAYS_PER_400_YEARS;
    let first: i64 = 1970 + 400 * cycles;
    let mut year: i64 = first;
    proof {
        lemma_split_years_skips_cycles(1970, day as int, cycles as int);
    }
    while rest >= year_length(year)
        invariant
            0 <= rest <= day,
            rest < 146097,
            first <= year,
            first == 1970 + 400 * cycles,
            0 <= cycles <= day / 146097,
            365 * (year - first) + rest <= 146097,
            split_years(year as int, rest as int) == split_years(1970, day as int),
        decreases rest,
    {
        rest = rest - year_length(year);
        year = year + 1;
    }
    (year, rest)
}

/// How many days of its month lie before day `day`.
fn day_in_month(day: i64) -> (before: i64)
    requires
        0 <= day,
    ensures
        before == day_of_month(day as int),
        0 <= before <= day,
{
    let (year, in_year) = year_and_day(day);
    let mut month: i64 = 1;
    let mut rest: i64 = in_year;
    while month < 12 && rest >= month_length(year, month)
        invariant
            1 <= month <= 12,
            0 <= rest <= in_year,
            1970 <= year,
            split_months(year as int, month as int, rest as int) == split_months(
                year as int,
                1,
                in_year as int,
            ),
        decreases 12 - month,
    {
        rest = rest - month_length(year, month);
        month = month + 1;
    }
    rest
}

impl InfoPeriod {
    /// The word for the period: `day`, `week`, `month` or `year`.
    pub fn label(&self) -> (word: &'static str)
        ensures
            word@ == period_word(*self),
    {
        proof {
            reveal_strlit("day");
            reveal_strlit("week");
            reveal_strlit("month");
            reveal_strlit("year");
        }
        let word: &'static str = match self {
            InfoPeriod::Day => "day",
            InfoPeriod::Week => "week",
            InfoPeriod::Month => "month",
            InfoPeriod::Year => "year",
        };
        assert(word@ =~= period_word(*self));
        word
    }

    /// The time at which the period's window opens for a report made at
    /// `now`.
    pub fn window_start(&self, now: i64) -> (since: i64)
        requires
            0 <= now,
        ensures
            since == window_opens(*self, now as int),
            since <= now,
    {
        let day: i64 = now / SECONDS_PER_DAY;
        match self {
            InfoPeriod::Day => day * SECONDS_PER_DAY,
            InfoPeriod::Week => (day - 6) * SECONDS_PER_DAY,
            InfoPeriod::Month => (day - day_in_month(day)) * SECONDS_PER_DAY,
            InfoPeriod::Year => {
                let (_, in_year) = year_and_day(day);
                (day - in_year) * SECONDS_PER_DAY
            },
        }
    }
}

} // verus!

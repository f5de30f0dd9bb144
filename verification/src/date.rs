//! Dates in the form that the Date header has.

use crate::number::{decimal, push_number};
use vstd::prelude::*;

verus! {

/// Days in four hundred years, after which the calendar repeats.
pub const CYCLE_DAYS: u64 = 146097;

pub open spec fn is_leap(year: int) -> bool {
    year % 4 == 0 && (year % 100 != 0 || year % 400 == 0)
}

pub open spec fn year_days(year: int) -> int {
    if is_leap(year) {
        366
    } else {
        365
    }
}

/// Days in a month; January is the first month.
pub open spec fn month_days(month: int, leap: bool) -> int {
    if month == 2 {
        if leap {
            29
        } else {
            28
        }
    } else if month == 4 || month == 6 || month == 9 || month == 11 {
        30
    } else {
        31
    }
}

/// The year, and the day within it, of the day that comes `day` days after the start of `year`.
pub open spec fn year_of(day: int, year: int) -> (int, int)
    decreases day,
{
    if day < year_days(year) {
        (year, day)
    } else {
        year_of(day - year_days(year), year + 1)
    }
}

/// The month, and the day within it from one on, of the day that comes `day` days after the start
/// of `month`.
pub open spec fn month_of(day: int, month: int, leap: bool) -> (int, int)
    decreases day,
{
    if day < month_days(month, leap) || month >= 12 {
        (month, day + 1)
    } else {
        month_of(day - month_days(month, leap), month + 1, leap)
    }
}

pub struct Date {
    pub year: int,
    pub month: int,
    pub day: int,
}

/// The date of the day that comes `days` days after the first of January 1970.
pub open spec fn date(days: int) -> Date {
    let (year, in_year) = year_of(days % CYCLE_DAYS as int, 1970);
    let (month, day) = month_of(in_year, 1, is_leap(year));
    Date { year: year + 400 * (days / CYCLE_DAYS as int), month, day }
}

pub open spec fn weekday_name(days: int) -> Seq<char> {
    let n = (days + 4) % 7;
    if n == 0 {
        "Sun"@
    } else if n == 1 {
        "Mon"@
    } else if n == 2 {
        "Tue"@
    } else if n == 3 {
        "Wed"@
    } else if n == 4 {
        "Thu"@
    } else if n == 5 {
        "Fri"@
    } else {
        "Sat"@
    }
}

pub open spec fn month_name(month: int) -> Seq<char> {
    if month == 1 {
        "Jan"@
    } else if month == 2 {
        "Feb"@
    } else if month == 3 {
        "Mar"@
    } else if month == 4 {
        "Apr"@
    } else if month == 5 {
        "May"@
    } else if month == 6 {
        "Jun"@
    } else if month == 7 {
        "Jul"@
    } else if month == 8 {
        "Aug"@
    } else if month == 9 {
        "Sep"@
    } else if month == 10 {
        "Oct"@
    } else if month == 11 {
        "Nov"@
    } else {
        "Dec"@
    }
}

/// A number with at least two digits.
pub open spec fn two_digits(n: int) -> Seq<char> {
    if n < 10 {
        "0"@ + decimal(n)
    } else {
        decimal(n)
    }
}

/// The date and time `seconds` after the start of 1970, such as
/// `Sun, 06 Nov 1994 08:49:37 GMT`.
pub open spec fn http_date(seconds: int) -> Seq<char> {
    let days = seconds / 86400;
    let time = seconds % 86400;
    let d = date(days);
    weekday_name(days) + ", "@ + two_digits(d.day) + " "@ + month_name(d.month) + " "@ + decimal(
        d.year,
    ) + " "@ + two_digits(time / 3600) + ":"@ + two_digits(time / 60 % 60) + ":"@ + two_digits(
        time % 60,
    ) + " GMT"@
}

fn leap_year(year: u64) -> (r: bool)
    ensures
        r == is_leap(year as int),
{
    year % 4 == 0 && (year % 100 != 0 || year % 400 == 0)
}

fn days_of_month(month: u64, leap: bool) -> (r: u64)
    ensures
        r == month_days(month as int, leap),
{
    if month == 2 {
        if leap {
            29
        } else {
            28
        }
    } else if month == 4 || month == 6 || month == 9 || month == 11 {
        30
    } else {
        31
    }
}

fn push_two(out: &mut String, n: u64)
    ensures
        final(out)@ == old(out)@ + two_digits(n as int),
{
    if n < 10 {
        out.append("0");
    }
    push_number(out, n as u128, 10);
}

fn push_weekday(out: &mut String, days: u64)
    requires
        days <= u64::MAX - 4,
    ensures
        final(out)@ == old(out)@ + weekday_name(days as int),
{
    let n: u64 = (days + 4) % 7;
    if n == 0 {
        out.append("Sun");
    } else if n == 1 {
        out.append("Mon");
    } else if n == 2 {
        out.append("Tue");
    } else if n == 3 {
        out.append("Wed");
    } else if n == 4 {
        out.append("Thu");
    } else if n == 5 {
        out.append("Fri");
    } else {
        out.append("Sat");
    }
}

fn push_month(out: &mut String, month: u64)
    ensures
        final(out)@ == old(out)@ + month_name(month as int),
{
    if month == 1 {
        out.append("Jan");
    } else if month == 2 {
        out.append("Feb");
    } else if month == 3 {
        out.append("Mar");
    } else if month == 4 {
        out.append("Apr");
    } else if month == 5 {
        out.append("May");
    } else if month == 6 {
        out.append("Jun");
    } else if month == 7 {
        out.append("Jul");
    } else if month == 8 {
        out.append("Aug");
    } else if month == 9 {
        out.append("Sep");
    } else if month == 10 {
        out.append("Oct");
    } else if month == 11 {
        out.append("Nov");
    } else {
        out.append("Dec");
    }
}

/// The year, month and day of the day `days` days after the first of January 1970.
fn civil(days: u64) -> (r: (u64, u64, u64))
    requires
        days <= u64::MAX / 86400,
    ensures
        r.0 == date(days as int).year,
        r.1 == date(days as int).month,
        r.2 == date(days as int).day,
{
    let cycles: u64 = days / CYCLE_DAYS;
    let mut rest: u64 = days % CYCLE_DAYS;
    let ghost goal = year_of(rest as int, 1970);
    let mut year: u64 = 1970;
    let mut leap = leap_year(year);
    while rest >= 365 && (!leap || rest >= 366)
        invariant
            goal == year_of(days as int % CYCLE_DAYS as int, 1970),
            goal == year_of(rest as int, year as int),
            leap == is_leap(year as int),
            rest < CYCLE_DAYS,
            1970 <= year,
            year + rest <= 1970 + CYCLE_DAYS,
        decreases rest,
    {
        rest = rest - (if leap {
            366
        } else {
            365
        });
        year = year + 1;
        leap = leap_year(year);
    }
    let mut month: u64 = 1;
    let ghost in_year = month_of(rest as int, 1, leap);
    while month < 12 && rest >= days_of_month(month, leap)
        invariant
            1 <= month <= 12,
            rest < 366,
            in_year == month_of(goal.1, 1, is_leap(goal.0)),
            in_year == month_of(rest as int, month as int, leap),
        decreases 12 - month,
    {
        rest = rest - days_of_month(month, leap);
        month = month + 1;
    }
    (year + 400 * cycles, month, rest + 1)
}

/// Appends the date and time `seconds` after the start of 1970.
pub fn push_http_date(out: &mut String, seconds: u64)
    ensures
        final(out)@ == old(out)@ + http_date(seconds as int),
{
    let days: u64 = seconds / 86400;
    let time: u64 = seconds % 86400;
    let (year, month, day) = civil(days);
    let ghost start = out@;
    push_weekday(out, days);
    out.append(", ");
    push_two(out, day);
    out.append(" ");
    push_month(out, month);
    out.append(" ");
    push_number(out, year as u128, 10);
    out.append(" ");
    push_two(out, time / 3600);
    out.append(":");
    push_two(out, time / 60 % 60);
    out.append(":");
    push_two(out, time % 60);
    out.append(" GMT");
    assert(out@ =~= start + http_date(seconds as int));
}

// The calendar

/// Leap years before a year.
pub open spec fn leap_years(year: int) -> int {
    (year - 1) / 4 - (year - 1) / 100 + (year - 1) / 400
}

/// Days from the start of 1970 to the start of a year.
pub open spec fn year_start(year: int) -> int {
    365 * (year - 1970) + leap_years(year) - leap_years(1970)
}

/// Days in a year before a month.
pub open spec fn month_start(month: int, leap: bool) -> int
    decreases month,
{
    if month <= 1 {
        0
    } else {
        month_start(month - 1, leap) + month_days(month - 1, leap)
    }
}

/// Days from the first of January 1970 to a date.
pub open spec fn day_number(d: Date) -> int {
    year_start(d.year) + month_start(d.month, is_leap(d.year)) + d.day - 1
}

proof fn lemma_fours(n: int)
    ensures
        n / 4 == (n - 1) / 4 + (if n % 4 == 0 {
            1int
        } else {
            0
        }),
        (n + 399) / 4 == (n - 1) / 4 + 100,
        (n + 400) % 4 == n % 4,
{
}

proof fn lemma_hundreds(n: int)
    ensures
        n / 100 == (n - 1) / 100 + (if n % 100 == 0 {
            1int
        } else {
            0
        }),
        (n + 399) / 100 == (n - 1) / 100 + 4,
        (n + 400) % 100 == n % 100,
        n % 100 == 0 ==> n % 4 == 0,
{
}

proof fn lemma_four_hundreds(n: int)
    ensures
        n / 400 == (n - 1) / 400 + (if n % 400 == 0 {
            1int
        } else {
            0
        }),
        (n + 399) / 400 == (n - 1) / 400 + 1,
        (n + 400) % 400 == n % 400,
        n % 400 == 0 ==> n % 100 == 0,
{
}

proof fn lemma_year_start(year: int)
    ensures
        year_start(year + 1) == year_start(year) + year_days(year),
        year_start(year + 400) == year_start(year) + CYCLE_DAYS,
        is_leap(year + 400) == is_leap(year),
{
    lemma_fours(year);
    lemma_hundreds(year);
    lemma_four_hundreds(year);
}

proof fn lemma_later_cycle(year: int, n: int)
    requires
        year >= 1970,
        n >= 0,
    ensures
        year_start(year + 400 * n) == year_start(year) + CYCLE_DAYS * n,
        is_leap(year + 400 * n) == is_leap(year),
    decreases n,
{
    if n > 0 {
        lemma_later_cycle(year, n - 1);
        lemma_year_start(year + 400 * (n - 1));
    }
}

proof fn lemma_year_of(day: int, year: int)
    requires
        day >= 0,
        year >= 1970,
    ensures
        year_of(day, year).0 >= year,
        0 <= year_of(day, year).1 < year_days(year_of(day, year).0),
        year_start(year_of(day, year).0) + year_of(day, year).1 == year_start(year) + day,
    decreases day,
{
    if day >= year_days(year) {
        lemma_year_start(year);
        lemma_year_of(day - year_days(year), year + 1);
    }
}

proof fn lemma_month_of(day: int, month: int, leap: bool)
    requires
        day >= 0,
        1 <= month <= 12,
        month_start(month, leap) + day < month_start(13, leap),
    ensures
        ({
            let (m, d) = month_of(day, month, leap);
            &&& 1 <= m <= 12
            &&& 1 <= d <= month_days(m, leap)
            &&& month_start(m, leap) + d - 1 == month_start(month, leap) + day
        }),
    decreases 12 - month,
{
    if day >= month_days(month, leap) && month < 12 {
        lemma_month_of(day - month_days(month, leap), month + 1, leap);
    }
}

/// The date of a day is a date of the calendar, and lies that many days after the first of January
/// 1970.
pub proof fn law_date_follows_the_calendar(days: int)
    requires
        days >= 0,
    ensures
        date(days).year >= 1970,
        1 <= date(days).month <= 12,
        1 <= date(days).day <= month_days(date(days).month, is_leap(date(days).year)),
        day_number(date(days)) == days,
{
    let cycles = days / CYCLE_DAYS as int;
    let rest = days % CYCLE_DAYS as int;
    lemma_year_of(rest, 1970);
    let (year, in_year) = year_of(rest, 1970);
    let leap = is_leap(year);
    assert(month_start(13, leap) == year_days(year)) by {
        reveal_with_fuel(month_start, 13);
    }
    lemma_month_of(in_year, 1, leap);
    lemma_later_cycle(year, cycles);
}

} // verus!

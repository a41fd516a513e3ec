//! The Gregorian calendar: what a date's number and its day of the week are.
use vstd::prelude::*;

verus! {

pub open spec fn is_leap(year: int) -> bool {
    (year % 4 == 0 && year % 100 != 0) || year % 400 == 0
}

/// How many of the years from `from` up to, but not including, `to` are leap years.
pub open spec fn leap_years(from: int, to: int) -> int
    decreases to - from,
{
    if to <= from {
        0
    } else {
        leap_years(from, to - 1) + if is_leap(to - 1) {
            1int
        } else {
            0int
        }
    }
}

/// How many days of the year stand before the month `month` (January is 1).
pub open spec fn days_before_month(year: int, month: int) -> int
    decreases month,
{
    if month <= 1 {
        0
    } else {
        days_before_month(year, month - 1) + days_in_month(year, month - 1)
    }
}

pub open spec fn days_in_month(year: int, month: int) -> int {
    if month == 4 || month == 6 || month == 9 || month == 11 {
        30
    } else if month == 2 {
        if is_leap(year) {
            29
        } else {
            28
        }
    } else {
        31
    }
}

/// The number of a date, counted from the first of January of the year zero.
pub open spec fn day_number(year: int, month: int, day: int) -> int {
    year * 365 + leap_years(0, year) + days_before_month(year, month) + day - 1
}

/// The day of the week of a date: 0 is Monday, 6 is Sunday. The count of days
/// begins with a Saturday.
pub open spec fn weekday(year: int, month: int, day: int) -> int {
    (day_number(year, month, day) + 5) % 7
}

/// The days from the first of January 2000 to a date; negative for a date before it.
pub open spec fn days_since_2000(year: int, month: int, day: int) -> int {
    day_number(year, month, day) - day_number(2000, 1, 1)
}

/// A month begins on the day behind the last day of the month before it, and a year on
/// the day behind the last day of December.
pub proof fn law_days_follow_each_other(year: int, month: int)
    requires
        0 <= year,
        1 <= month <= 12,
    ensures
        month < 12 ==> day_number(year, month + 1, 1) == day_number(
            year,
            month,
            days_in_month(year, month),
        ) + 1,
        day_number(year + 1, 1, 1) == day_number(year, 12, 31) + 1,
{
    reveal_with_fuel(days_before_month, 13);
}

/// The day behind a date falls on the next day of the week.
pub proof fn law_weekdays_follow_each_other(year: int, month: int, day: int)
    ensures
        0 <= weekday(year, month, day) <= 6,
        weekday(year, month, day + 1) == (weekday(year, month, day) + 1) % 7,
{
}

/// The days since 2000 begin with the first of January 2000, and the days behind a date, a
/// month and a year follow it, before 2000 as well as after.
pub proof fn law_days_since_2000(year: int, month: int, day: int)
    requires
        0 <= year,
        1 <= month <= 12,
    ensures
        days_since_2000(2000, 1, 1) == 0,
        days_since_2000(year, month, day + 1) == days_since_2000(year, month, day) + 1,
        month < 12 ==> days_since_2000(year, month + 1, 1) == days_since_2000(
            year,
            month,
            days_in_month(year, month),
        ) + 1,
        days_since_2000(year + 1, 1, 1) == days_since_2000(year, 12, 31) + 1,
{
    law_days_follow_each_other(year, month);
}

/// Whether there is such a date.
pub open spec fn is_date(year: int, month: int, day: int) -> bool {
    &&& 0 <= year
    &&& 1 <= month <= 12
    &&& 1 <= day <= days_in_month(year, month)
}

proof fn lemma_year_begins_later(earlier: int, later: int)
    requires
        0 <= earlier < later,
    ensures
        day_number(earlier + 1, 1, 1) <= day_number(later, 1, 1),
    decreases later,
{
    if earlier + 1 < later {
        lemma_year_begins_later(earlier, later - 1);
    }
}

proof fn lemma_month_begins_later(year: int, earlier: int, later: int)
    requires
        1 <= earlier < later,
    ensures
        day_number(year, earlier, days_in_month(year, earlier)) < day_number(year, later, 1),
    decreases later,
{
    if earlier + 1 < later {
        lemma_month_begins_later(year, earlier, later - 1);
    }
}

/// Later dates have greater numbers.
pub proof fn law_days_grow(y: int, m: int, d: int, year: int, month: int, day: int)
    requires
        is_date(y, m, d),
        is_date(year, month, day),
        y < year || y == year && (m < month || m == month && d < day),
    ensures
        day_number(y, m, d) < day_number(year, month, day),
{
    if y < year {
        law_days_follow_each_other(y, 12);
        if m < 12 {
            lemma_month_begins_later(y, m, 12);
        }
        lemma_year_begins_later(y, year);
        if 1 < month {
            lemma_month_begins_later(year, 1, month);
        }
    } else if m < month {
        lemma_month_begins_later(y, m, month);
    }
}

/// The first of January 2000.
pub proof fn lemma_first_of_2000()
    ensures
        day_number(2000, 1, 1) == 730_485,
{
    lemma_leap_years(1999);
}

/// The leap years before a year, in closed form.
pub proof fn lemma_leap_years(year: int)
    requires
        0 <= year,
    ensures
        leap_years(0, year + 1) == year / 4 - year / 100 + year / 400 + 1,
    decreases year,
{
    if year == 0 {
        reveal_with_fuel(leap_years, 2);
    } else {
        lemma_leap_years(year - 1);
        lemma_quotient_step(year, 4);
        lemma_quotient_step(year, 100);
        lemma_quotient_step(year, 400);
    }
}

proof fn lemma_quotient_step(n: int, k: int)
    requires
        1 <= n,
        k == 4 || k == 100 || k == 400,
    ensures
        n / k == (n - 1) / k + if n % k == 0 {
            1int
        } else {
            0int
        },
{
    if k == 4 {
        assert(n / 4 == (n - 1) / 4 + if n % 4 == 0 { 1int } else { 0int });
    } else if k == 100 {
        assert(n / 100 == (n - 1) / 100 + if n % 100 == 0 { 1int } else { 0int });
    } else {
        assert(n / 400 == (n - 1) / 400 + if n % 400 == 0 { 1int } else { 0int });
    }
}

/// The days before each month, from the table of a common year.
pub proof fn lemma_days_before_month(year: int, month: int)
    requires
        1 <= month <= 12,
    ensures
        days_before_month(year, month) == seq![
            0int,
            31,
            59,
            90,
            120,
            151,
            181,
            212,
            243,
            273,
            304,
            334,
        ][month - 1] + if is_leap(year) && month > 2 {
            1int
        } else {
            0int
        },
{
    reveal_with_fuel(days_before_month, 13);
}

/// The monthly shifts of Sakamoto's rule.
pub open spec fn shift_of(month: int) -> int {
    seq![0int, 3, 2, 5, 0, 3, 5, 1, 4, 6, 2, 4][month - 1]
}

/// Sakamoto's rule: the sum whose remainder by seven tells the day of the week, with 0
/// for Sunday. January and February count to the year before.
pub open spec fn sakamoto_sum(year: int, month: int, day: int) -> int {
    let y = if month < 3 {
        year - 1
    } else {
        year
    };
    y + y / 4 - y / 100 + y / 400 + shift_of(month) + day
}

/// Sakamoto's rule gives the day of the week of the calendar.
pub proof fn lemma_sakamoto(year: int, month: int, day: int)
    requires
        0 <= year,
        1 <= month <= 12,
        month < 3 ==> 1 <= year,
    ensures
        weekday(year, month, day) == (sakamoto_sum(year, month, day) + 6) % 7,
{
    lemma_days_before_month(year, month);
    let y = if month < 3 {
        year - 1
    } else {
        year
    };
    lemma_leap_years(y);
    let number = day_number(year, month, day);
    let sum = sakamoto_sum(year, month, day);
    let before = seq![0int, 31, 59, 90, 120, 151, 181, 212, 243, 273, 304, 334][month - 1];
    if month < 3 {
        assert(number == year * 365 + (y / 4 - y / 100 + y / 400 + 1) + before + day - 1);
        assert(number + 5 - (sum + 6) == 364 * year + before - shift_of(month));
    } else {
        assert(leap_years(0, year + 1) == leap_years(0, year) + if is_leap(year) {
            1int
        } else {
            0int
        });
        assert(number == year * 365 + (y / 4 - y / 100 + y / 400 + 1) + before + day - 1);
        assert(number + 5 - (sum + 6) == 364 * year + before - shift_of(month) - 1);
    }
    let weeks = 52 * year + (before - shift_of(month)) / 7;
    assert(number + 5 == 7 * weeks + (sum + 6));
    vstd::arithmetic::div_mod::lemma_mod_multiples_vanish(weeks, sum + 6, 7);
}

/// Every year that can be divided by four has 366 days, but for those that can be divided by
/// a hundred and not by four hundred; all others have 365.
pub proof fn law_lengths_of_years(year: int)
    requires
        0 <= year,
    ensures
        day_number(year + 1, 1, 1) - day_number(year, 1, 1) == if year % 4 == 0 && (year % 100 != 0
            || year % 400 == 0) {
            366int
        } else {
            365
        },
{
}

/// April, June, September and November have 30 days, February has 29 in years of 366 days
/// and else 28, and all others have 31; and a day is followed by the next.
pub proof fn law_lengths_of_months(year: int, month: int, day: int)
    requires
        0 <= year,
        1 <= month <= 11,
    ensures
        day_number(year, month + 1, day) - day_number(year, month, day) == if month == 4 || month
            == 6 || month == 9 || month == 11 {
            30int
        } else if month == 2 {
            if day_number(year + 1, 1, 1) - day_number(year, 1, 1) == 366 {
                29
            } else {
                28
            }
        } else {
            31
        },
        day_number(year, month, day + 1) - day_number(year, month, day) == 1,
        day_number(year, 12, day + 1) - day_number(year, 12, day) == 1,
        day_number(year + 1, 1, 1) - day_number(year, 12, 1) == 31,
{
    law_lengths_of_years(year);
    law_days_follow_each_other(year, 12);
}

/// The first of January 2000 was a Saturday, and days of the week repeat every seven days.
pub proof fn law_weekdays_from_2000(year: int, month: int, day: int)
    ensures
        weekday(2000, 1, 1) == 5,
        weekday(year, month, day) == (5 + day_number(year, month, day) - day_number(2000, 1, 1))
            % 7,
{
    lemma_first_of_2000();
    let n = day_number(year, month, day);
    assert(5 + n - 730_485 == 7 * (-104_355) + (n + 5));
    vstd::arithmetic::div_mod::lemma_mod_multiples_vanish(-104_355, n + 5, 7);
}

} // verus!

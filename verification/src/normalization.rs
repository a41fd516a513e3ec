//! Reading timestamps, for the features of a transaction.
//!
//! Timestamps are read by fixed offsets: `YYYY-MM-DDTHH:MM:SSZ`. Whether the bytes in
//! these places are digits is not checked; what is needed is only that the numbers
//! they make fit.
use vstd::prelude::*;
use vstd::slice::slice_subrange;
use vstd::string::StringSliceAdditionalSpecFns;

verus! {

use crate::calendar::{days_since_2000, is_date, sakamoto_sum, shift_of, weekday};

/// The number that the two bytes at `i` make.
pub open spec fn two_digits(b: Seq<u8>, i: int) -> int {
    (b[i] - 0x30) * 10 + (b[i + 1] - 0x30)
}

/// The number that the four bytes at `i` make.
pub open spec fn four_digits(b: Seq<u8>, i: int) -> int {
    (b[i] - 0x30) * 1000 + (b[i + 1] - 0x30) * 100 + (b[i + 2] - 0x30) * 10 + (b[i + 3] - 0x30)
}

/// Whether the two bytes at `i` make a number that fits into a byte.
pub open spec fn two_readable(b: Seq<u8>, i: int) -> bool {
    &&& i + 2 <= b.len()
    &&& b[i] >= 0x30
    &&& b[i + 1] >= 0x30
    &&& two_digits(b, i) <= 255
}

/// Whether the four bytes at `i` make a number.
pub open spec fn four_readable(b: Seq<u8>, i: int) -> bool {
    &&& i + 4 <= b.len()
    &&& b[i] >= 0x30
    &&& b[i + 1] >= 0x30
    &&& b[i + 2] >= 0x30
    &&& b[i + 3] >= 0x30
}

pub open spec fn year_of(b: Seq<u8>) -> int {
    four_digits(b, 0)
}

pub open spec fn month_of(b: Seq<u8>) -> int {
    two_digits(b, 5)
}

pub open spec fn day_of(b: Seq<u8>) -> int {
    two_digits(b, 8)
}

pub open spec fn hour_of(b: Seq<u8>) -> int {
    two_digits(b, 11)
}

pub open spec fn minute_of(b: Seq<u8>) -> int {
    two_digits(b, 14)
}

/// Whether the hour can be read.
pub open spec fn hour_readable(b: Seq<u8>) -> bool {
    two_readable(b, 11)
}

/// Whether the date can be read and has a month that exists.
pub open spec fn date_readable(b: Seq<u8>) -> bool {
    &&& four_readable(b, 0)
    &&& two_readable(b, 5)
    &&& two_readable(b, 8)
    &&& 1 <= month_of(b) <= 12
}

/// Whether the day of the week can be told: January and February are counted to the
/// year before, which the year zero has not.
pub open spec fn weekday_readable(b: Seq<u8>) -> bool {
    &&& date_readable(b)
    &&& month_of(b) < 3 ==> year_of(b) >= 1
}

/// Whether date, hour and minute can be read.
pub open spec fn minutes_readable(b: Seq<u8>) -> bool {
    &&& date_readable(b)
    &&& two_readable(b, 11)
    &&& two_readable(b, 14)
}

/// The minutes from the beginning of the year 2000 to a timestamp.
pub open spec fn minutes_of(b: Seq<u8>) -> int {
    days_since_2000(year_of(b), month_of(b), day_of(b)) * 1440 + hour_of(b) * 60 + minute_of(b)
}

/// The number that the first two bytes make.
pub fn parse_u8_2(b: &[u8]) -> (r: u8)
    requires
        two_readable(b@, 0),
    ensures
        r == two_digits(b@, 0),
{
    (b[0] - 0x30) * 10 + (b[1] - 0x30)
}

/// The number that the first four bytes make.
pub fn parse_u32_4(b: &[u8]) -> (r: u32)
    requires
        four_readable(b@, 0),
    ensures
        r == four_digits(b@, 0),
{
    (b[0] - 0x30) as u32 * 1000 + (b[1] - 0x30) as u32 * 100 + (b[2] - 0x30) as u32 * 10 + (b[3]
        - 0x30) as u32
}

/// The number that the two bytes at `at` make.
pub fn two_at(b: &[u8], at: usize) -> (r: u8)
    requires
        two_readable(b@, at as int),
    ensures
        r == two_digits(b@, at as int),
{
    assert(at + 2 <= b.len());
    parse_u8_2(slice_subrange(b, at, at + 2))
}

/// The hour of a timestamp.
pub fn hour_of_day_bytes(b: &[u8]) -> (r: u8)
    requires
        hour_readable(b@),
    ensures
        r == hour_of(b@),
{
    (b[11] - 0x30) * 10 + (b[12] - 0x30)
}

/// The hour of a timestamp.
pub fn hour_of_day(ts: &str) -> (r: u8)
    requires
        hour_readable(ts.spec_bytes()),
    ensures
        r == hour_of(ts.spec_bytes()),
{
    hour_of_day_bytes(ts.as_bytes())
}

/// Sakamoto's rule for a date.
fn weekday_of(year: u32, month: u32, day: u32) -> (r: u8)
    requires
        year < 1_000_000,
        1 <= month <= 12,
        day < 1_000,
        month < 3 ==> 1 <= year,
    ensures
        r == weekday(year as int, month as int, day as int),
{
    // The monthly shifts.
    let shifts: [u32; 12] = [0, 3, 2, 5, 0, 3, 5, 1, 4, 6, 2, 4];
    let y = if month < 3 {
        year - 1
    } else {
        year
    };
    let shift = shifts[(month - 1) as usize];
    assert(shift == shift_of(month as int));
    let sum = y + y / 4 - y / 100 + y / 400 + shift + day;
    assert(sum == sakamoto_sum(year as int, month as int, day as int));
    let dow = sum % 7;
    assert(weekday(year as int, month as int, day as int) == (sum + 6) % 7) by {
        crate::calendar::lemma_sakamoto(year as int, month as int, day as int);
    }
    if dow == 0 {
        6
    } else {
        (dow - 1) as u8
    }
}

/// The day of the week of a timestamp, 0 for Monday to 6 for Sunday.
pub fn day_of_week_bytes(b: &[u8]) -> (r: u8)
    requires
        weekday_readable(b@),
    ensures
        r == weekday(year_of(b@), month_of(b@), day_of(b@)),
{
    let head = slice_subrange(b, 0, 4);
    assert(four_digits(head@, 0) == year_of(b@));
    let y = parse_u32_4(head);
    let m = two_at(b, 5) as u32;
    let d = two_at(b, 8) as u32;
    weekday_of(y, m, d)
}

/// The day of the week of a timestamp, 0 for Monday to 6 for Sunday.
pub fn day_of_week(ts: &str) -> (r: u8)
    requires
        weekday_readable(ts.spec_bytes()),
    ensures
        r == weekday(
            year_of(ts.spec_bytes()),
            month_of(ts.spec_bytes()),
            day_of(ts.spec_bytes()),
        ),
        0 <= r <= 6,
{
    day_of_week_bytes(ts.as_bytes())
}

/// The days from the beginning of the year 2000 to a date.
fn days_to(year: i64, month: i64, day: i64) -> (r: i64)
    requires
        0 <= year < 1_000_000,
        1 <= month <= 12,
        0 <= day < 1_000,
    ensures
        r == days_since_2000(year as int, month as int, day as int),
        -1_000_000_000 < r < 1_000_000_000,
{
    let month_days: [i64; 12] = [0, 31, 59, 90, 120, 151, 181, 212, 243, 273, 304, 334];
    let is_leap = (year % 4 == 0 && year % 100 != 0) || (year % 400 == 0);
    let leap_offset: i64 = if is_leap && month > 2 {
        1
    } else {
        0
    };
    // The leap years from the year zero on; 485 of them are before 2000.
    let leap_years: i64 = if year >= 1 {
        (year - 1) / 4 - (year - 1) / 100 + (year - 1) / 400 + 1
    } else {
        0
    };
    proof {
        crate::calendar::lemma_days_before_month(year as int, month as int);
        crate::calendar::lemma_first_of_2000();
        if year >= 1 {
            crate::calendar::lemma_leap_years(year - 1);
        }
    }
    (year - 2000) * 365 + leap_years - 485 + month_days[(month - 1) as usize] + leap_offset + day
        - 1
}

/// The minutes from the beginning of the year 2000 to a timestamp.
pub fn datetime_to_minutes_bytes(b: &[u8]) -> (r: i64)
    requires
        minutes_readable(b@),
    ensures
        r == minutes_of(b@),
        -0x1_0000_0000_0000 < r < 0x1_0000_0000_0000,
{
    let head = slice_subrange(b, 0, 4);
    assert(four_digits(head@, 0) == year_of(b@));
    let year = parse_u32_4(head) as i64;
    let month = two_at(b, 5) as i64;
    let day = two_at(b, 8) as i64;
    let hour = two_at(b, 11) as i64;
    let min = two_at(b, 14) as i64;
    days_to(year, month, day) * 1440 + hour * 60 + min
}

/// The minutes from the beginning of the year 2000 to a timestamp.
pub fn datetime_to_minutes(ts: &str) -> (r: i64)
    requires
        minutes_readable(ts.spec_bytes()),
    ensures
        r == minutes_of(ts.spec_bytes()),
{
    datetime_to_minutes_bytes(ts.as_bytes())
}

/// The absolute difference of two timestamps, in minutes.
pub open spec fn minutes_between(a: Seq<u8>, b: Seq<u8>) -> int {
    if minutes_of(a) >= minutes_of(b) {
        minutes_of(a) - minutes_of(b)
    } else {
        minutes_of(b) - minutes_of(a)
    }
}

/// The absolute difference of two timestamps, in minutes.
pub fn minutes_diff_bytes(t1: &[u8], t2: &[u8]) -> (r: u64)
    requires
        minutes_readable(t1@),
        minutes_readable(t2@),
    ensures
        r == minutes_between(t1@, t2@),
{
    let a = datetime_to_minutes_bytes(t1);
    let b = datetime_to_minutes_bytes(t2);
    if a >= b {
        (a - b) as u64
    } else {
        (b - a) as u64
    }
}

/// The absolute difference of two timestamps, in minutes.
pub fn minutes_diff(t1: &str, t2: &str) -> (r: u64)
    requires
        minutes_readable(t1.spec_bytes()),
        minutes_readable(t2.spec_bytes()),
    ensures
        r == minutes_between(t1.spec_bytes(), t2.spec_bytes()),
{
    minutes_diff_bytes(t1.as_bytes(), t2.as_bytes())
}

/// The difference of two timestamps is the same both ways, and none between a timestamp
/// and itself.
pub proof fn law_minutes_between(a: Seq<u8>, b: Seq<u8>)
    ensures
        minutes_between(a, b) == minutes_between(b, a),
        minutes_between(a, b) >= 0,
        minutes_between(a, a) == 0,
{
}

/// The minutes between two timestamps are those that the calendar counts, whatever days,
/// months and years lie between them.
pub proof fn law_minutes_follow_the_calendar(a: Seq<u8>, b: Seq<u8>)
    ensures
        ({
            let days = crate::calendar::day_number(year_of(a), month_of(a), day_of(a))
                - crate::calendar::day_number(year_of(b), month_of(b), day_of(b));
            let minutes = (hour_of(a) - hour_of(b)) * 60 + minute_of(a) - minute_of(b);
            let difference = days * 1440 + minutes;
            minutes_between(a, b) == if difference >= 0 {
                difference
            } else {
                -difference
            }
        }),
{
}

/// Whether a timestamp names a date, an hour and a minute that there are.
pub open spec fn is_moment(b: Seq<u8>) -> bool {
    &&& is_date(year_of(b), month_of(b), day_of(b))
    &&& 0 <= hour_of(b) < 24
    &&& 0 <= minute_of(b) < 60
}

/// Whether the date of `a` is the earlier one.
pub open spec fn is_earlier_date(a: Seq<u8>, b: Seq<u8>) -> bool {
    ||| year_of(a) < year_of(b)
    ||| year_of(a) == year_of(b) && month_of(a) < month_of(b)
    ||| year_of(a) == year_of(b) && month_of(a) == month_of(b) && day_of(a) < day_of(b)
}

/// Whether `a` is earlier than `b`, to the minute.
pub open spec fn is_earlier(a: Seq<u8>, b: Seq<u8>) -> bool {
    ||| is_earlier_date(a, b)
    ||| !is_earlier_date(b, a) && hour_of(a) < hour_of(b)
    ||| !is_earlier_date(b, a) && hour_of(a) == hour_of(b) && minute_of(a) < minute_of(b)
}

/// The minutes grow with the timestamp: an earlier one has fewer.
pub proof fn law_minutes_grow(a: Seq<u8>, b: Seq<u8>)
    requires
        is_moment(a),
        is_moment(b),
    ensures
        is_earlier(a, b) <==> minutes_of(a) < minutes_of(b),
{
    if is_earlier_date(a, b) {
        crate::calendar::law_days_grow(
            year_of(a),
            month_of(a),
            day_of(a),
            year_of(b),
            month_of(b),
            day_of(b),
        );
    } else if is_earlier_date(b, a) {
        crate::calendar::law_days_grow(
            year_of(b),
            month_of(b),
            day_of(b),
            year_of(a),
            month_of(a),
            day_of(a),
        );
    }
}

/// The minutes of a timestamp are those of its date, hour and minute, by the digits that
/// stand at their places: a day has 1440 of them, an hour 60, and they begin with 2000.
pub proof fn law_minutes_by_their_digits(b: Seq<u8>)
    ensures
        ({
            let year = 1000 * (b[0] - 0x30) + 100 * (b[1] - 0x30) + 10 * (b[2] - 0x30) + (b[3]
                - 0x30);
            let month = 10 * (b[5] - 0x30) + (b[6] - 0x30);
            let day = 10 * (b[8] - 0x30) + (b[9] - 0x30);
            let hour = 10 * (b[11] - 0x30) + (b[12] - 0x30);
            let minute = 10 * (b[14] - 0x30) + (b[15] - 0x30);
            &&& year_of(b) == year
            &&& month_of(b) == month
            &&& day_of(b) == day
            &&& hour_of(b) == hour
            &&& minute_of(b) == minute
            &&& minutes_of(b) == 1440 * (crate::calendar::day_number(year, month, day)
                - crate::calendar::day_number(2000, 1, 1)) + 60 * hour + minute
        }),
{
}

/// The difference of two timestamps is how many minutes the later one is behind the earlier.
pub proof fn law_difference_of_minutes(a: Seq<u8>, b: Seq<u8>)
    ensures
        minutes_of(a) >= minutes_of(b) ==> minutes_of(b) + minutes_between(a, b) == minutes_of(a),
        minutes_of(a) <= minutes_of(b) ==> minutes_of(a) + minutes_between(a, b) == minutes_of(b),
{
}

/// Minutes that can be read fit into a machine number.
pub proof fn lemma_minutes_fit(b: Seq<u8>)
    requires
        minutes_readable(b),
    ensures
        -0x1_0000_0000_0000 < minutes_of(b) < 0x1_0000_0000_0000,
{
    crate::calendar::lemma_days_before_month(year_of(b), month_of(b));
    crate::calendar::lemma_first_of_2000();
    if year_of(b) >= 1 {
        crate::calendar::lemma_leap_years(year_of(b) - 1);
    }
}

} // verus!

//! Points in time, written as `2026-03-11T18:45:53Z`.
use vstd::prelude::*;

verus! {

/// The digit zero.
pub const ZERO: u8 = 48;

/// What the digit at `i` stands for.
pub open spec fn digit(s: Seq<u8>, i: int) -> int {
    s[i] - ZERO
}

/// The number that two digits make.
pub open spec fn two_digits(s: Seq<u8>, p: int) -> int {
    digit(s, p) * 10 + digit(s, p + 1)
}

/// The number that four digits make.
pub open spec fn four_digits(s: Seq<u8>, p: int) -> int {
    digit(s, p) * 1000 + digit(s, p + 1) * 100 + digit(s, p + 2) * 10 + digit(s, p + 3)
}

/// The `n` bytes from `p` on exist and are not below the digits.
pub open spec fn has_digits(s: Seq<u8>, p: int, n: int) -> bool {
    &&& 0 <= p && p + n <= s.len()
    &&& forall|i: int| p <= i < p + n ==> #[trigger] s[i] >= ZERO
}

pub fn d2(s: &[u8], p: usize) -> (n: i32)
    requires
        has_digits(s@, p as int, 2),
    ensures
        n == two_digits(s@, p as int),
        0 <= n <= 2277,
{
    assert(s@[p as int] >= ZERO && s@[p + 1] >= ZERO);
    (s[p] - ZERO) as i32 * 10 + (s[p + 1] - ZERO) as i32
}

pub fn d4(s: &[u8], p: usize) -> (n: i32)
    requires
        has_digits(s@, p as int, 4),
    ensures
        n == four_digits(s@, p as int),
        0 <= n <= 229977,
{
    assert(s@[p as int] >= ZERO && s@[p + 1] >= ZERO && s@[p + 2] >= ZERO && s@[p + 3] >= ZERO);
    (s[p] - ZERO) as i32 * 1000 + (s[p + 1] - ZERO) as i32 * 100 + (s[p + 2] - ZERO) as i32 * 10 + (
    s[p + 3] - ZERO) as i32
}

/// The year, counted from March to February.
pub open spec fn march_year(y: int, m: int) -> int {
    if m <= 2 {
        y - 1
    } else {
        y
    }
}

/// The month, counted from March as month 0.
pub open spec fn march_month(m: int) -> int {
    if m > 2 {
        m - 3
    } else {
        m + 9
    }
}

/// The days from the first of March to the `d`th of month `m`.
pub open spec fn days_since_march(m: int, d: int) -> int {
    (153 * march_month(m) + 2) / 5 + d - 1
}

/// The days of `y` years.
pub open spec fn days_of_years(y: int) -> int {
    365 * y + y / 4 - y / 100 + y / 400
}

/// The days from the first of January 1970 to a date of the Gregorian
/// calendar.
pub open spec fn day_number(y: int, m: int, d: int) -> int {
    days_of_years(march_year(y, m)) + days_since_march(m, d) - 719468
}

/// [`civil_day`] can compute the number of the day.
pub open spec fn is_countable(y: int, m: int, d: int) -> bool {
    &&& 0 <= march_year(y, m)
    &&& 0 <= march_month(m)
    &&& 0 <= d
    &&& 0 <= days_since_march(m, d)
    &&& 153 * march_month(m) + 2 <= u32::MAX
    &&& day_number(y, m, d) + 719468 <= i32::MAX
}

/// The days from the first of January 1970 to a date.
pub fn civil_day(y: i32, m: i32, d: i32) -> (n: i32)
    requires
        is_countable(y as int, m as int, d as int),
    ensures
        n == day_number(y as int, m as int, d as int),
{
    let my: i32 = if m <= 2 {
        y - 1
    } else {
        y
    };
    let era: i32 = my / 400;
    let yoe: u32 = (my - era * 400) as u32;
    let mm: u32 = (if m > 2 {
        m - 3
    } else {
        m + 9
    }) as u32;
    proof {
        assert(my == era * 400 + yoe && 0 <= yoe < 400);
        assert(days_of_years(my as int) == era * 146097 + yoe * 365 + yoe as int / 4 - yoe as int
            / 100);
    }
    let doy: u32 = (153 * mm + 2) / 5 + d as u32 - 1;
    let doe: u32 = yoe * 365 + yoe / 4 - yoe / 100 + doy;
    era * 146097 + doe as i32 - 719468
}

/// The offset of month `m` in the reckoning of weekdays.
pub open spec fn month_offset(m: int) -> int {
    if m == 1 {
        0
    } else if m == 2 {
        3
    } else if m == 3 {
        2
    } else if m == 4 {
        5
    } else if m == 5 {
        0
    } else if m == 6 {
        3
    } else if m == 7 {
        5
    } else if m == 8 {
        1
    } else if m == 9 {
        4
    } else if m == 10 {
        6
    } else if m == 11 {
        2
    } else {
        4
    }
}

/// The day of the week, from 0 for Monday to 6 for Sunday. (A year below the
/// first has no leap days.)
pub open spec fn weekday_of(y: int, m: int, d: int) -> int {
    let my = march_year(y, m);
    let years = if my >= 0 {
        my + my / 4 - my / 100 + my / 400
    } else {
        my
    };
    (years + month_offset(m) + d + 6) % 7
}

/// The date lies in March 2026.
pub open spec fn in_march_2026(ts: Seq<u8>) -> bool {
    &&& ts.len() >= 16
    &&& ts[0] == ZERO + 2 && ts[1] == ZERO && ts[2] == ZERO + 2 && ts[3] == ZERO + 6
    &&& ts[5] == ZERO && ts[6] == ZERO + 3
}

fn is_in_march_2026(ts: &[u8]) -> (yes: bool)
    ensures
        yes == in_march_2026(ts@),
{
    ts.len() >= 16 && ts[0] == ZERO + 2 && ts[1] == ZERO && ts[2] == ZERO + 2 && ts[3] == ZERO + 6
        && ts[5] == ZERO && ts[6] == ZERO + 3
}

/// The number of the day that the date gives.
pub open spec fn day_of(ts: Seq<u8>) -> int {
    day_number(four_digits(ts, 0), two_digits(ts, 5), two_digits(ts, 8))
}

/// The minutes from the beginning of 1970 to a point in time.
pub open spec fn minutes_of(ts: Seq<u8>) -> int {
    day_of(ts) * 1440 + two_digits(ts, 11) * 60 + two_digits(ts, 14)
}

/// The date can be read.
pub open spec fn has_date(ts: Seq<u8>) -> bool {
    &&& has_digits(ts, 8, 2)
    &&& !in_march_2026(ts) ==> has_digits(ts, 0, 4) && has_digits(ts, 5, 2)
}

/// [`ts_minutes`] can compute the minutes.
pub open spec fn has_minutes(ts: Seq<u8>) -> bool {
    &&& has_date(ts)
    &&& has_digits(ts, 11, 2)
    &&& has_digits(ts, 14, 2)
    &&& !in_march_2026(ts) ==> is_countable(
        four_digits(ts, 0),
        two_digits(ts, 5),
        two_digits(ts, 8),
    )
    &&& i32::MIN <= day_of(ts) * 1440
    &&& minutes_of(ts) <= i32::MAX
}

/// The minutes from the beginning of 1970 to a point in time. In March 2026
/// there is a short way: 20512 is the number of the day before the month's
/// first.
pub fn ts_minutes(ts: &[u8]) -> (n: i32)
    requires
        has_minutes(ts@),
    ensures
        n == minutes_of(ts@),
{
    if is_in_march_2026(ts) {
        return (20512 + d2(ts, 8)) * 1440 + d2(ts, 11) * 60 + d2(ts, 14);
    }
    civil_day(d4(ts, 0), d2(ts, 5), d2(ts, 8)) * 1440 + d2(ts, 11) * 60 + d2(ts, 14)
}

/// The day of the week of a point in time.
pub open spec fn weekday(ts: Seq<u8>) -> int {
    if in_march_2026(ts) {
        (two_digits(ts, 8) + 5) % 7
    } else {
        weekday_of(four_digits(ts, 0), two_digits(ts, 5), two_digits(ts, 8))
    }
}

/// [`ts_weekday`] can compute the day of the week.
pub open spec fn has_weekday(ts: Seq<u8>) -> bool {
    &&& has_date(ts)
    &&& !in_march_2026(ts) ==> 1 <= two_digits(ts, 5) <= 12
}

pub fn ts_weekday(ts: &[u8]) -> (n: i32)
    requires
        has_weekday(ts@),
    ensures
        n == weekday(ts@),
        0 <= n <= 6,
{
    if is_in_march_2026(ts) {
        return (d2(ts, 8) + 5) % 7;
    }
    let y = d4(ts, 0);
    let m = d2(ts, 5);
    let day = d2(ts, 8);
    let my: i32 = if m < 3 {
        y - 1
    } else {
        y
    };
    let years: i32 = if my < 0 {
        my
    } else {
        my + my / 4 - my / 100 + my / 400
    };
    let offset: i32 = match m {
        1 => 0,
        2 => 3,
        3 => 2,
        4 => 5,
        5 => 0,
        6 => 3,
        7 => 5,
        8 => 1,
        9 => 4,
        10 => 6,
        11 => 2,
        _ => 4,
    };
    (years + offset + day + 6) % 7
}

/// Tells whether the `n` bytes from `p` on can be read as digits.
pub fn check_digits(s: &[u8], p: usize, n: usize) -> (yes: bool)
    requires
        p + n <= usize::MAX,
    ensures
        yes == has_digits(s@, p as int, n as int),
{
    if s.len() < p + n {
        return false;
    }
    let mut i: usize = p;
    while i < p + n
        invariant
            p <= i <= p + n <= s.len(),
            forall|j: int| p <= j < i ==> #[trigger] s@[j] >= ZERO,
        decreases p + n - i,
    {
        if s[i] < ZERO {
            assert(s@[i as int] < ZERO);
            return false;
        }
        i = i + 1;
    }
    true
}

fn check_date(ts: &[u8]) -> (yes: bool)
    ensures
        yes == has_date(ts@),
{
    check_digits(ts, 8, 2) && (is_in_march_2026(ts) || (check_digits(ts, 0, 4) && check_digits(
        ts,
        5,
        2,
    )))
}

/// Tells whether [`ts_weekday`] can compute the day of the week.
pub fn check_weekday(ts: &[u8]) -> (yes: bool)
    ensures
        yes == has_weekday(ts@),
{
    if !check_date(ts) {
        return false;
    }
    if is_in_march_2026(ts) {
        return true;
    }
    let m = d2(ts, 5);
    1 <= m && m <= 12
}

/// Tells whether [`ts_minutes`] can compute the minutes.
pub fn check_minutes(ts: &[u8]) -> (yes: bool)
    ensures
        yes == has_minutes(ts@),
{
    if !(check_date(ts) && check_digits(ts, 11, 2) && check_digits(ts, 14, 2)) {
        return false;
    }
    if is_in_march_2026(ts) {
        return true;
    }
    let y = d4(ts, 0);
    let m = d2(ts, 5);
    let d = d2(ts, 8);
    if (m <= 2 && y == 0) || (m == 3 && d == 0) {
        return false;
    }
    proof {
        assert(0 <= march_month(m as int) <= 2274);
        assert(0 <= days_since_march(m as int, d as int) <= 100000);
        assert(days_of_years(march_year(y as int, m as int)) <= 100_000_000);
    }
    let day: i64 = civil_day(y, m, d) as i64;
    let minutes: i64 = day * 1440 + d2(ts, 11) as i64 * 60 + d2(ts, 14) as i64;
    i32::MIN as i64 <= day * 1440 && minutes <= i32::MAX as i64
}

/// A year of the Gregorian calendar has a 29th of February.
pub open spec fn is_leap(y: int) -> bool {
    y % 4 == 0 && (y % 100 != 0 || y % 400 == 0)
}

/// The number of days of a month.
pub open spec fn month_len(y: int, m: int) -> int {
    if m == 2 {
        if is_leap(y) {
            29
        } else {
            28
        }
    } else if m == 4 || m == 6 || m == 9 || m == 11 {
        30
    } else {
        31
    }
}

/// A date of the Gregorian calendar, of the year 1 or later.
pub open spec fn is_date(y: int, m: int, d: int) -> bool {
    1 <= y && 1 <= m <= 12 && 1 <= d <= month_len(y, m)
}

/// The next day.
pub open spec fn next_date(y: int, m: int, d: int) -> (int, int, int) {
    if d < month_len(y, m) {
        (y, m, d + 1)
    } else if m < 12 {
        (y, m + 1, 1)
    } else {
        (y + 1, 1, 1)
    }
}

/// Days are numbered one after the other, and the first of January 1970 has
/// the number 0.
pub proof fn law_days_are_counted(y: int, m: int, d: int)
    requires
        is_date(y, m, d),
    ensures
        day_number(1970, 1, 1) == 0,
        is_date(next_date(y, m, d).0, next_date(y, m, d).1, next_date(y, m, d).2),
        day_number(next_date(y, m, d).0, next_date(y, m, d).1, next_date(y, m, d).2) == day_number(
            y,
            m,
            d,
        ) + 1,
{
    lemma_leap_day(y);
    assert(m == 1 || m == 2 || m == 3 || m == 4 || m == 5 || m == 6 || m == 7 || m == 8 || m == 9
        || m == 10 || m == 11 || m == 12);
    if d == month_len(y, m) {
        lemma_month_ends(y, m);
    }
}

/// A year is a day longer if it is a leap year.
proof fn lemma_leap_day(y: int)
    ensures
        days_of_years(y) - days_of_years(y - 1) == if is_leap(y) {
            366int
        } else {
            365int
        },
{
    lemma_fourth_years(y);
    lemma_hundredth_years(y);
    lemma_four_hundredth_years(y);
}

proof fn lemma_fourth_years(y: int)
    ensures
        y / 4 - (y - 1) / 4 == if y % 4 == 0 {
            1int
        } else {
            0int
        },
{
}

proof fn lemma_hundredth_years(y: int)
    ensures
        y / 100 - (y - 1) / 100 == if y % 100 == 0 {
            1int
        } else {
            0int
        },
        y % 100 == 0 ==> y % 4 == 0,
{
}

proof fn lemma_four_hundredth_years(y: int)
    ensures
        y / 400 - (y - 1) / 400 == if y % 400 == 0 {
            1int
        } else {
            0int
        },
        y % 400 == 0 ==> y % 100 == 0,
{
}

/// The first of a month follows the last of the month before.
proof fn lemma_month_ends(y: int, m: int)
    requires
        1 <= m <= 12,
    ensures
        days_since_march(if m < 12 {
            m + 1
        } else {
            1
        }, 1) - days_since_march(m, month_len(y, m)) == if m == 2 {
            if is_leap(y) {
                -365int
            } else {
                -364int
            }
        } else {
            1int
        },
{
    assert(m == 1 || m == 2 || m == 3 || m == 4 || m == 5 || m == 6 || m == 7 || m == 8 || m == 9
        || m == 10 || m == 11 || m == 12);
}

/// The day of the week is that of the day's number: the days of a week follow
/// each other without end. (The first of January 1970 was a Thursday.)
pub proof fn law_weekday_follows_the_days(y: int, m: int, d: int)
    requires
        0 <= march_year(y, m),
        1 <= m <= 12,
    ensures
        weekday_of(y, m, d) == (day_number(y, m, d) + 3) % 7,
{
    let my = march_year(y, m);
    let years = my + my / 4 - my / 100 + my / 400;
    lemma_month_offset(m, d);
    let weeks = (days_since_march(m, d) - d - month_offset(m) - 719468 + 3 - 6) / 7;
    assert(day_number(y, m, d) + 3 == years + month_offset(m) + d + 6 + 7 * (52 * my + weeks));
    lemma_whole_weeks(years + month_offset(m) + d + 6, 52 * my + weeks);
}

proof fn lemma_whole_weeks(a: int, weeks: int)
    ensures
        (a + 7 * weeks) % 7 == a % 7,
{
}

proof fn lemma_month_offset(m: int, d: int)
    requires
        1 <= m <= 12,
    ensures
        (days_since_march(m, d) - d - month_offset(m) - 719468 + 3 - 6) % 7 == 0,
{
    assert(m == 1 || m == 2 || m == 3 || m == 4 || m == 5 || m == 6 || m == 7 || m == 8 || m == 9
        || m == 10 || m == 11 || m == 12);
}

/// The days of the week in March 2026 are those of the calendar.
pub proof fn law_march_2026_weekdays(ts: Seq<u8>)
    requires
        in_march_2026(ts),
    ensures
        weekday(ts) == weekday_of(2026, 3, two_digits(ts, 8)),
{
}

/// The minutes between two points in time are the days between them, the
/// hours and the minutes, whatever months they lie in.
pub proof fn law_minutes_between(a: Seq<u8>, b: Seq<u8>)
    ensures
        minutes_of(a) - minutes_of(b) == (day_number(
            four_digits(a, 0),
            two_digits(a, 5),
            two_digits(a, 8),
        ) - day_number(four_digits(b, 0), two_digits(b, 5), two_digits(b, 8))) * 1440 + (two_digits(
            a,
            11,
        ) - two_digits(b, 11)) * 60 + two_digits(a, 14) - two_digits(b, 14),
{
}

/// Digits stand for their values, the first for the most.
pub proof fn law_digits_make_numbers(s: Seq<u8>, p: int)
    ensures
        two_digits(s, p) == 10 * (s[p] - 48) + (s[p + 1] - 48),
        four_digits(s, p) == 1000 * (s[p] - 48) + 100 * (s[p + 1] - 48) + 10 * (s[p + 2] - 48) + (
        s[p + 3] - 48),
        has_digits(s, p, 2) <==> 0 <= p && p + 2 <= s.len() && s[p] >= 48 && s[p + 1] >= 48,
        has_digits(s, p, 4) <==> 0 <= p && p + 4 <= s.len() && s[p] >= 48 && s[p + 1] >= 48 && s[p
            + 2] >= 48 && s[p + 3] >= 48,
{
    if 0 <= p && p + 2 <= s.len() && s[p] >= 48 && s[p + 1] >= 48 {
        assert forall|i: int| p <= i < p + 2 implies #[trigger] s[i] >= ZERO by {
            assert(i == p || i == p + 1);
        }
    }
    if 0 <= p && p + 4 <= s.len() && s[p] >= 48 && s[p + 1] >= 48 && s[p + 2] >= 48 && s[p + 3]
        >= 48 {
        assert forall|i: int| p <= i < p + 4 implies #[trigger] s[i] >= ZERO by {
            assert(i == p || i == p + 1 || i == p + 2 || i == p + 3);
        }
    }
}

/// The year stands first in a timestamp, the month behind a byte, the day
/// behind another, and so on; the minutes are counted from the beginning of
/// 1970.
pub proof fn law_minutes_of_a_timestamp(ts: Seq<u8>)
    ensures
        minutes_of(ts) == 1440 * day_number(
            four_digits(ts, 0),
            two_digits(ts, 5),
            two_digits(ts, 8),
        ) + 60 * two_digits(ts, 11) + two_digits(ts, 14),
        day_number(1970, 1, 1) == 0,
{
}

/// Within a month each day has the number behind that of the day before, even
/// behind the month's end; months of 30 or 31 days go on behind December, where
/// those of the next year are; and 400 years are 146097 days.
pub proof fn law_days_go_on(y: int, m: int, d: int, e: int)
    ensures
        day_number(y, m, d) - day_number(y, m, e) == d - e,
        3 <= m ==> 30 <= day_number(y, m + 1, d) - day_number(y, m, d) <= 31,
        3 <= m ==> day_number(y, m + 5, d) - day_number(y, m, d) == 153,
        -9 <= m <= 2 ==> day_number(y, m, d) == day_number(y - 1, m + 12, d),
        day_number(y + 400, m, d) - day_number(y, m, d) == 146097,
{
    lemma_four_centuries(march_year(y, m));
}

proof fn lemma_four_centuries(y: int)
    ensures
        (y + 400) / 4 == y / 4 + 100,
        (y + 400) / 100 == y / 100 + 4,
        (y + 400) / 400 == y / 400 + 1,
{
}

/// The day of the week that a timestamp gives is that of its date, in March
/// 2026 as at all other times.
pub proof fn law_weekday_of_a_timestamp(ts: Seq<u8>)
    requires
        has_weekday(ts),
    ensures
        four_digits(ts, 0) >= 1 || two_digits(ts, 5) >= 3 ==> weekday(ts) == (day_number(
            four_digits(ts, 0),
            two_digits(ts, 5),
            two_digits(ts, 8),
        ) + 3) % 7,
        four_digits(ts, 0) == 0 && two_digits(ts, 5) == 1 ==> weekday(ts) == (two_digits(ts, 8) + 5)
            % 7,
        four_digits(ts, 0) == 0 && two_digits(ts, 5) == 2 ==> weekday(ts) == (two_digits(ts, 8) + 8)
            % 7,
{
    let y = four_digits(ts, 0);
    let m = two_digits(ts, 5);
    if y >= 1 || m >= 3 {
        assert(1 <= m <= 12);
        law_weekday_follows_the_days(y, m, two_digits(ts, 8));
        if in_march_2026(ts) {
            law_march_2026_weekdays(ts);
        }
    }
}

/// A timestamp has a weekday if its date is written in digits and its month is
/// one of twelve. It has minutes if its date, its hour and its minute are, its
/// date is not before the first of March of the year 0, nor the day before a
/// March, and the count fits 32 bits. In March 2026, which is told by its
/// bytes, only the day is looked at.
pub proof fn law_what_a_timestamp_needs(ts: Seq<u8>)
    ensures
        ({
            let march = ts.len() >= 16 && ts[0] == 50 && ts[1] == 48 && ts[2] == 50 && ts[3] == 54
                && ts[5] == 48 && ts[6] == 51;
            let y = four_digits(ts, 0);
            let m = two_digits(ts, 5);
            let d = two_digits(ts, 8);
            let date = has_digits(ts, 8, 2) && (march || has_digits(ts, 0, 4) && has_digits(
                ts,
                5,
                2,
            ));
            let day = day_number(y, m, d);
            &&& has_weekday(ts) <==> date && (march || 1 <= m <= 12)
            &&& has_minutes(ts) <==> date && has_digits(ts, 11, 2) && has_digits(ts, 14, 2) && (march
                || !(m <= 2 && y == 0) && !(m == 3 && d == 0)) && -2147483648 <= 1440 * day && 1440
                * day + 60 * two_digits(ts, 11) + two_digits(ts, 14) <= 2147483647
        }),
{
    let y = four_digits(ts, 0);
    let m = two_digits(ts, 5);
    let d = two_digits(ts, 8);
    law_digits_make_numbers(ts, 0);
    law_digits_make_numbers(ts, 5);
    law_digits_make_numbers(ts, 8);
    if has_digits(ts, 0, 4) && has_digits(ts, 5, 2) && has_digits(ts, 8, 2) {
        assert(0 <= y <= 229977 && 0 <= m <= 2277 && 0 <= d <= 2277);
        assert(0 <= march_month(m) <= 2274);
        assert(153 * march_month(m) + 2 <= u32::MAX);
        assert(-1 <= days_since_march(m, d) <= 100000);
        assert(days_since_march(m, d) == -1 <==> m == 3 && d == 0);
        assert(days_of_years(march_year(y, m)) <= 100_000_000);
    }
}

} // verus!

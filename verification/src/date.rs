//! Calendar dates and ISO 8601 timestamps.
//!
//! OKF needs only two things from dates: `stale_after` is compared against
//! today, and `verified[].at` entries are ordered to find the most
//! recent. Both are plain comparisons, so this is a small proleptic
//! Gregorian implementation rather than a datetime dependency.

use vstd::arithmetic::div_mod::{lemma_div_multiples_vanish_fancy, lemma_fundamental_div_mod};
use vstd::prelude::*;
use vstd::utf8::{encode_utf8, is_char_boundary};

use crate::text::{
    all_digits, chars_of, decimal, digits_value, find_first_either, find_last_either,
    first_index_where, is_either, last_index_where, lemma_first_index_where, parse_digits,
    parse_small, push_char, push_padded, small_number, substring, zero_pad,
};

verus! {

/// Whether `year` is a leap year in the proleptic Gregorian calendar.
pub open spec fn leap(year: int) -> bool {
    (year % 4 == 0 && year % 100 != 0) || year % 400 == 0
}

/// The number of days in `month` of `year`; 0 for a month outside `1..=12`.
pub open spec fn month_length(year: int, month: int) -> int {
    if month == 1 || month == 3 || month == 5 || month == 7 || month == 8 || month == 10
        || month == 12 {
        31
    } else if month == 4 || month == 6 || month == 9 || month == 11 {
        30
    } else if month == 2 {
        if leap(year) {
            29
        } else {
            28
        }
    } else {
        0
    }
}

/// Days in the months of `year` before `month`.
pub open spec fn days_before_month(year: int, month: int) -> int
    decreases month,
{
    if month <= 1 {
        0
    } else {
        days_before_month(year, month - 1) + month_length(year, month - 1)
    }
}

/// Leap years in `[0, year)`, extended to negative years so that each step
/// adds one exactly when the year stepped over is a leap year.
pub open spec fn leaps_before(year: int) -> int {
    (year + 3) / 4 - (year + 99) / 100 + (year + 399) / 400
}

/// The first day of `year`, counted in days from 1970-01-01.
pub open spec fn year_start(year: int) -> int {
    365 * year + leaps_before(year) - 719528
}

/// The day number of a calendar date: days since 1970-01-01.
pub open spec fn day_number(year: int, month: int, day: int) -> int {
    year_start(year) + days_before_month(year, month) + day - 1
}

/// The number of days in `year`.
pub open spec fn year_length(year: int) -> int {
    if leap(year) {
        366
    } else {
        365
    }
}

proof fn lemma_div_shift(x: int, t: int, d: int)
    requires
        d > 0,
    ensures
        (x + d * t) / d == x / d + t,
{
    lemma_fundamental_div_mod(x, d);
    let q = x / d;
    let r = x % d;
    assert(x + d * t == d * (q + t) + r) by (nonlinear_arith)
        requires
            x == d * q + r,
    ;
    lemma_div_multiples_vanish_fancy(q + t, r, d);
}

/// Stepping `y` by one moves `(y + d - 1) / d` exactly when `d` divides `y`.
proof fn lemma_div_step(y: int, d: int)
    requires
        d > 0,
    ensures
        (y + d) / d - (y + d - 1) / d == (if y % d == 0 {
            1int
        } else {
            0int
        }),
{
    lemma_fundamental_div_mod(y, d);
    let q = y / d;
    let r = y % d;
    assert(y + d == d * (q + 1) + r) by (nonlinear_arith)
        requires
            y == d * q + r,
    ;
    lemma_div_multiples_vanish_fancy(q + 1, r, d);
    if r == 0 {
        assert(y + d - 1 == d * q + (d - 1)) by (nonlinear_arith)
            requires
                y == d * q,
        ;
        lemma_div_multiples_vanish_fancy(q, d - 1, d);
    } else {
        assert(y + d - 1 == d * (q + 1) + (r - 1)) by (nonlinear_arith)
            requires
                y == d * q + r,
        ;
        lemma_div_multiples_vanish_fancy(q + 1, r - 1, d);
    }
}

/// A multiple of `a * b` is a multiple of `a`.
proof fn lemma_divides_factor(y: int, a: int, b: int)
    requires
        a > 0,
        b > 0,
        y % (a * b) == 0,
    ensures
        y % a == 0,
{
    assert(a * b > 0) by (nonlinear_arith)
        requires
            a > 0,
            b > 0,
    ;
    lemma_fundamental_div_mod(y, a * b);
    lemma_fundamental_div_mod(y, a);
    let q = y / (a * b);
    let p = y / a;
    let r = y % a;
    assert(r == a * (b * q - p)) by (nonlinear_arith)
        requires
            y == (a * b) * q,
            y == a * p + r,
    ;
    assert(r == 0) by (nonlinear_arith)
        requires
            r == a * (b * q - p),
            0 <= r < a,
    ;
}

/// Consecutive year starts differ by the length of the year between them.
#[verifier::spinoff_prover]
pub proof fn lemma_year_step(year: int)
    ensures
        year_start(year + 1) == year_start(year) + year_length(year),
{
    if year % 400 == 0 {
        lemma_divides_factor(year, 100, 4);
    }
    if year % 100 == 0 {
        lemma_divides_factor(year, 4, 25);
    }
    lemma_div_step(year, 4);
    lemma_div_step(year, 100);
    lemma_div_step(year, 400);
    assert(year + 1 + 3 == year + 4);
    assert(year + 1 + 99 == year + 100);
    assert(year + 1 + 399 == year + 400);
}

/// Four hundred years are exactly 146097 days.
pub proof fn lemma_era_shift(year: int, eras: int)
    ensures
        year_start(year + 400 * eras) == year_start(year) + 146097 * eras,
{
    lemma_div_shift(year + 3, 100 * eras, 4);
    lemma_div_shift(year + 99, 4 * eras, 100);
    lemma_div_shift(year + 399, eras, 400);
}

} // verus!

verus! {

/// Whether `(year, month, day)` names a real calendar day.
pub open spec fn valid_ymd(year: int, month: int, day: int) -> bool {
    1 <= month <= 12 && 1 <= day <= month_length(year, month)
}

pub proof fn lemma_days_before_month_table(year: int, month: int)
    requires
        1 <= month <= 13,
    ensures
        days_before_month(year, month) == (if month == 1 {
            0int
        } else if month == 2 {
            31
        } else if month == 3 {
            59
        } else if month == 4 {
            90
        } else if month == 5 {
            120
        } else if month == 6 {
            151
        } else if month == 7 {
            181
        } else if month == 8 {
            212
        } else if month == 9 {
            243
        } else if month == 10 {
            273
        } else if month == 11 {
            304
        } else if month == 12 {
            334
        } else {
            365
        }) + (if month > 2 && leap(year) {
            1int
        } else {
            0
        }),
{
    reveal_with_fuel(days_before_month, 13);
}

/// The months before `m` never outlast the year.
pub proof fn lemma_month_within_year(year: int, month: int)
    requires
        1 <= month <= 12,
    ensures
        days_before_month(year, month) + month_length(year, month) == days_before_month(
            year,
            month + 1,
        ),
        days_before_month(year, month + 1) <= year_length(year),
        days_before_month(year, 13) == year_length(year),
{
    lemma_days_before_month_table(year, month);
    lemma_days_before_month_table(year, month + 1);
    lemma_days_before_month_table(year, 13);
}

/// A valid date falls inside its own year.
pub proof fn lemma_date_in_year(year: int, month: int, day: int)
    requires
        valid_ymd(year, month, day),
    ensures
        year_start(year) <= day_number(year, month, day) < year_start(year + 1),
{
    lemma_month_within_year(year, month);
    lemma_days_before_month_table(year, month);
    lemma_year_step(year);
}

/// Year starts strictly increase.
pub proof fn lemma_year_start_increases(a: int, b: int)
    requires
        a < b,
    ensures
        year_start(a + 1) <= year_start(b),
        year_start(a) < year_start(b),
    decreases b - a,
{
    lemma_year_step(a);
    if a + 1 < b {
        lemma_year_start_increases(a + 1, b);
    }
}

/// Whether one date comes before another, field by field.
pub open spec fn ymd_before(y1: int, m1: int, d1: int, y2: int, m2: int, d2: int) -> bool {
    y1 < y2 || (y1 == y2 && (m1 < m2 || (m1 == m2 && d1 < d2)))
}

/// Day numbers put valid dates in calendar order.
pub proof fn lemma_day_number_order(y1: int, m1: int, d1: int, y2: int, m2: int, d2: int)
    requires
        valid_ymd(y1, m1, d1),
        valid_ymd(y2, m2, d2),
        ymd_before(y1, m1, d1, y2, m2, d2),
    ensures
        day_number(y1, m1, d1) < day_number(y2, m2, d2),
{
    lemma_date_in_year(y1, m1, d1);
    lemma_date_in_year(y2, m2, d2);
    if y1 < y2 {
        lemma_year_start_increases(y1, y2);
    } else if m1 < m2 {
        lemma_days_before_month_table(y1, m1);
        lemma_days_before_month_table(y1, m1 + 1);
        lemma_days_before_month_table(y1, m2);
        lemma_month_within_year(y1, m1);
        lemma_months_increase(y1, m1 + 1, m2);
    }
}

proof fn lemma_months_increase(year: int, a: int, b: int)
    requires
        1 <= a <= b <= 13,
    ensures
        days_before_month(year, a) <= days_before_month(year, b),
{
    lemma_days_before_month_table(year, a);
    lemma_days_before_month_table(year, b);
}

} // verus!

verus! {

/// A proleptic Gregorian calendar date.
#[derive(Debug, Clone, Copy, PartialEq, Eq, Structural, PartialOrd, Ord, Hash)]
pub struct Date {
    pub year: i32,
    pub month: u8,
    pub day: u8,
}

/// The year containing day number `n`.
pub open spec fn year_of_day(n: int) -> int {
    choose|y: int| #[trigger] year_start(y) <= n < year_start(y + 1)
}

/// The month containing day number `n`.
pub open spec fn month_of_day(n: int) -> int {
    let y = year_of_day(n);
    choose|m: int|
        1 <= m <= 12 && #[trigger] days_before_month(y, m) <= n - year_start(y) < days_before_month(y, m + 1)
}

/// The day of the month of day number `n`.
pub open spec fn day_of_day(n: int) -> int {
    let y = year_of_day(n);
    n - year_start(y) - days_before_month(y, month_of_day(n)) + 1
}

/// Only one year brackets a day number.
pub proof fn lemma_year_bracket_unique(n: int, a: int, b: int)
    requires
        year_start(a) <= n < year_start(a + 1),
        year_start(b) <= n < year_start(b + 1),
    ensures
        a == b,
{
    if a < b {
        lemma_year_start_increases(a, b);
    } else if b < a {
        lemma_year_start_increases(b, a);
    }
}

/// The date of a day number, given the year and month that bracket it.
pub proof fn lemma_civil_of(n: int, y: int, m: int)
    requires
        year_start(y) <= n < year_start(y + 1),
        1 <= m <= 12,
        days_before_month(y, m) <= n - year_start(y) < days_before_month(y, m + 1),
    ensures
        year_of_day(n) == y,
        month_of_day(n) == m,
        day_of_day(n) == n - year_start(y) - days_before_month(y, m) + 1,
{
    let yy = year_of_day(n);
    lemma_year_bracket_unique(n, y, yy);
    let mm = month_of_day(n);
    if mm != m {
        if mm < m {
            lemma_months_increase(y, mm + 1, m);
        } else {
            lemma_months_increase(y, m + 1, mm);
        }
    }
}

impl Date {
    /// Whether the fields name a real calendar day.
    pub open spec fn is_valid(self) -> bool {
        valid_ymd(self.year as int, self.month as int, self.day as int)
    }

    /// Days since 1970-01-01.
    pub open spec fn days(self) -> int {
        day_number(self.year as int, self.month as int, self.day as int)
    }

    /// Calendar order: by year, then month, then day.
    pub open spec fn before(self, other: Date) -> bool {
        ymd_before(
            self.year as int,
            self.month as int,
            self.day as int,
            other.year as int,
            other.month as int,
            other.day as int,
        )
    }

    /// Whether `self` falls strictly before `other` in the calendar.
    pub fn is_before(&self, other: &Date) -> (b: bool)
        ensures
            b == self.before(*other),
    {
        self.year < other.year || (self.year == other.year && (self.month < other.month || (
        self.month == other.month && self.day < other.day)))
    }
}

proof fn lemma_leap_shift(year: int, t: int)
    ensures
        leap(year + 400 * t) == leap(year),
{
    lemma_div_shift(year, t, 400);
    lemma_div_shift(year, 4 * t, 100);
    lemma_div_shift(year, 100 * t, 4);
    lemma_fundamental_div_mod(year, 400);
    lemma_fundamental_div_mod(year, 100);
    lemma_fundamental_div_mod(year, 4);
    lemma_fundamental_div_mod(year + 400 * t, 400);
    lemma_fundamental_div_mod(year + 400 * t, 100);
    lemma_fundamental_div_mod(year + 400 * t, 4);
}

fn is_leap_year(year: i64) -> (b: bool)
    ensures
        b == leap(year as int),
{
    let shifted: i128 = year as i128 + 40_000_000_000_000_000_000;
    proof {
        lemma_leap_shift(year as int, 100_000_000_000_000_000);
    }
    (shifted % 4 == 0 && shifted % 100 != 0) || shifted % 400 == 0
}

/// Days in the months of `year` before `month`.
fn days_before(year: i64, month: u8) -> (d: i64)
    requires
        1 <= month <= 13,
    ensures
        d == days_before_month(year as int, month as int),
        0 <= d <= 366,
{
    proof {
        lemma_days_before_month_table(year as int, month as int);
    }
    let base: i64 = match month {
        1 => 0,
        2 => 31,
        3 => 59,
        4 => 90,
        5 => 120,
        6 => 151,
        7 => 181,
        8 => 212,
        9 => 243,
        10 => 273,
        11 => 304,
        12 => 334,
        _ => 365,
    };
    if month > 2 && is_leap_year(year) {
        base + 1
    } else {
        base
    }
}

/// The first day of `year` in days since 1970-01-01.
fn start_of_year(year: i64) -> (d: i64)
    requires
        -10_000_000_000 <= year <= 10_000_000_000,
    ensures
        d == year_start(year as int),
        -4_000_000_000_000 <= d <= 4_000_000_000_000,
{
    let shifted = year + 4_000_000_000_000;
    proof {
        lemma_era_shift(year as int, 10_000_000_000);
        lemma_fundamental_div_mod(shifted + 3, 4);
        lemma_fundamental_div_mod(shifted + 99, 100);
        lemma_fundamental_div_mod(shifted + 399, 400);
    }
    let a = (shifted + 3) / 4;
    let b = (shifted + 99) / 100;
    let c = (shifted + 399) / 400;
    assert(997_497_500_000 <= a <= 1_002_500_000_001);
    assert(39_899_000_000 <= b <= 40_101_000_001);
    assert(9_974_000_000 <= c <= 10_026_000_001);
    let leaps = a - b + c;
    365 * year + leaps - 970_000_000_000 - 719_528
}

} // verus!

verus! {

/// A valid date is recovered from its own day number.
pub proof fn lemma_day_number_round_trip(year: int, month: int, day: int)
    requires
        valid_ymd(year, month, day),
    ensures
        year_of_day(day_number(year, month, day)) == year,
        month_of_day(day_number(year, month, day)) == month,
        day_of_day(day_number(year, month, day)) == day,
{
    lemma_date_in_year(year, month, day);
    lemma_month_within_year(year, month);
    lemma_civil_of(day_number(year, month, day), year, month);
}

impl Date {
    /// Days since 1970-01-01.
    pub fn to_days_since_epoch(self) -> (n: i64)
        requires
            self.is_valid(),
        ensures
            n == self.days(),
            -5_000_000_000_000 <= n <= 5_000_000_000_000,
    {
        start_of_year(self.year as i64) + days_before(self.year as i64, self.month) + self.day as i64
            - 1
    }

    /// The calendar date of a day number (days since 1970-01-01).
    ///
    /// A year outside `i32` is truncated to it, as an `as` cast does.
    pub fn from_days_since_epoch(days: i64) -> (d: Date)
        requires
            days <= i64::MAX - 719_468,
        ensures
            d.year == year_of_day(days as int) as i32,
            d.month == month_of_day(days as int),
            d.day == day_of_day(days as int),
    {
        let z: i128 = days as i128 + 719_528;
        let era_wide: i128 = if z >= 0 {
            z / 146_097
        } else {
            -((-(z + 1)) / 146_097) - 1
        };
        proof {
            if z >= 0 {
                lemma_fundamental_div_mod(z as int, 146_097);
            } else {
                lemma_fundamental_div_mod(-(z + 1), 146_097);
            }
        }
        let doe_wide: i128 = z - era_wide * 146_097;
        assert(0 <= doe_wide < 146_097);
        assert(-70_000_000_000_000 <= era_wide <= 70_000_000_000_000);
        let era: i64 = era_wide as i64;
        let doe: i64 = doe_wide as i64;
        proof {
            lemma_era_shift(0, 1);
        }
        let mut k: i64 = 0;
        while k < 399 && start_of_year(k + 1) + 719_528 <= doe
            invariant
                0 <= k <= 399,
                0 <= doe < 146_097,
                year_start(k as int) + 719_528 <= doe,
            decreases 399 - k,
        {
            k = k + 1;
        }
        proof {
            if k == 399 {
                assert(year_start(400) + 719_528 == 146_097);
            }
            assert(doe < year_start(k + 1) + 719_528);
            lemma_era_shift(k as int, era as int);
            lemma_era_shift(k + 1, era as int);
            lemma_year_step(k as int);
        }
        let year = era * 400 + k;
        assert(year_start(year as int) <= days < year_start(year + 1)) by {
            assert(year + 1 == (k + 1) + 400 * era);
        }
        let doy = doe - (start_of_year(k) + 719_528);
        proof {
            lemma_year_step(year as int);
            lemma_month_within_year(year as int, 12);
            lemma_days_before_month_table(year as int, 1);
        }
        let mut m: u8 = 1;
        while m < 12 && days_before(year, m + 1) <= doy
            invariant
                1 <= m <= 12,
                0 <= doy < year_length(year as int),
                days_before_month(year as int, m as int) <= doy,
                days_before_month(year as int, 13) == year_length(year as int),
            decreases 12 - m,
        {
            m = m + 1;
        }
        let day = doy - days_before(year, m) + 1;
        proof {
            lemma_month_within_year(year as int, m as int);
            lemma_civil_of(days as int, year as int, m as int);
        }
        Date { year: year as i32, month: m, day: day as u8 }
    }

    /// Converts a Unix timestamp in seconds to the UTC calendar date.
    pub fn from_unix_seconds(seconds: i64) -> (d: Date)
        ensures
            d.year == year_of_day(floor_days(seconds as int)) as i32,
            d.month == month_of_day(floor_days(seconds as int)),
            d.day == day_of_day(floor_days(seconds as int)),
    {
        let days: i64 = if seconds >= 0 {
            seconds / 86_400
        } else {
            -((-(seconds + 1)) / 86_400) - 1
        };
        proof {
            if seconds >= 0 {
                lemma_fundamental_div_mod(seconds as int, 86_400);
            } else {
                lemma_fundamental_div_mod(-(seconds + 1), 86_400);
            }
            lemma_fundamental_div_mod(seconds as int, 86_400);
        }
        assert(days == floor_days(seconds as int));
        Self::from_days_since_epoch(days)
    }
}

/// Whole days in `seconds`, rounded towards negative infinity.
pub open spec fn floor_days(seconds: int) -> int {
    seconds / 86_400
}

} // verus!

verus! {

/// The year field of `YYYY-MM-DD`: exactly four ASCII digits.
pub open spec fn year_field(t: Seq<char>) -> Option<int> {
    if t.len() == 4 && all_digits(t) {
        Some(digits_value(t))
    } else {
        None
    }
}

/// The date a `YYYY-MM-DD` string names, if it names a real one.
pub open spec fn date_from_text(t: Seq<char>) -> Option<Date> {
    if t.len() != 10 || t[4] != '-' || t[7] != '-' {
        None
    } else {
        match (
            year_field(t.subrange(0, 4)),
            small_number(t.subrange(5, 7)),
            small_number(t.subrange(8, 10)),
        ) {
            (Some(y), Some(m), Some(d)) => if valid_ymd(y, m, d) {
                Some(Date { year: y as i32, month: m as u8, day: d as u8 })
            } else {
                None
            },
            _ => None,
        }
    }
}

/// The `YYYY-MM-DD` rendering of a date, as `{:04}-{:02}-{:02}` formats it.
pub open spec fn date_text(d: Date) -> Seq<char> {
    let year = if d.year < 0 {
        seq!['-'] + zero_pad(decimal((-d.year) as nat), 3)
    } else {
        zero_pad(decimal(d.year as nat), 4)
    };
    year + seq!['-'] + zero_pad(decimal(d.month as nat), 2) + seq!['-'] + zero_pad(
        decimal(d.day as nat),
        2,
    )
}

fn parse_year(cs: &[char]) -> (r: Option<i32>)
    requires
        cs@.len() >= 4,
    ensures
        r matches Some(y) ==> year_field(cs@.subrange(0, 4)) == Some(y as int),
        r is None ==> year_field(cs@.subrange(0, 4)) is None,
{
    match parse_digits(cs, 0, 4) {
        Some(v) => {
            proof {
                crate::text::lemma_digits_value_bound(cs@.subrange(0, 4));
                reveal_with_fuel(crate::text::pow10, 5);
            }
            Some(v as i32)
        },
        None => None,
    }
}

impl Date {
    /// Parses `YYYY-MM-DD`, rejecting out-of-range and non-existent dates.
    pub fn parse(text: &str) -> (r: Option<Date>)
        ensures
            r == date_from_text(text@),
            r matches Some(d) ==> d.is_valid(),
    {
        let cs = chars_of(text);
        if cs.len() != 10 || cs[4] != '-' || cs[7] != '-' {
            return None;
        }
        let year = match parse_year(cs.as_slice()) {
            Some(y) => y,
            None => return None,
        };
        let month = match parse_small(cs.as_slice(), 5, 7) {
            Some(m) => m,
            None => return None,
        };
        let day = match parse_small(cs.as_slice(), 8, 10) {
            Some(d) => d,
            None => return None,
        };
        if month >= 1 && month <= 12 && day >= 1 && (day as i64) <= Self::days_in_month(year as i64, month as u8) {
            Some(Date { year, month: month as u8, day: day as u8 })
        } else {
            None
        }
    }

    fn days_in_month(year: i64, month: u8) -> (n: i64)
        requires
            1 <= month <= 12,
        ensures
            n == month_length(year as int, month as int),
    {
        proof {
            lemma_month_within_year(year as int, month as int);
        }
        days_before(year, month + 1) - days_before(year, month)
    }

    /// The date as `YYYY-MM-DD`, zero-padded.
    pub fn to_string(&self) -> (s: String)
        ensures
            s@ == date_text(*self),
    {
        let mut s = String::new();
        if self.year < 0 {
            push_char(&mut s, '-');
            push_padded(&mut s, (-(self.year as i64)) as u64, 3);
        } else {
            push_padded(&mut s, self.year as u64, 4);
        }
        push_char(&mut s, '-');
        push_padded(&mut s, self.month as u64, 2);
        push_char(&mut s, '-');
        push_padded(&mut s, self.day as u64, 2);
        s
    }
}

} // verus!

verus! {

/// Splits a time from its zone designator (`Z`, `+HH:MM`, `-HHMM`, `+HH`),
/// giving the time text and the offset in seconds east of UTC.
pub open spec fn zone_of(rest: Seq<char>) -> Option<(Seq<char>, int)> {
    if rest.len() > 0 && (rest.last() == 'Z' || rest.last() == 'z') {
        Some((rest.drop_last(), 0))
    } else {
        match last_index_where(rest, is_either('+', '-')) {
            None => Some((rest, 0)),
            Some(i) => {
                let sign = if rest[i] == '-' {
                    -1int
                } else {
                    1int
                };
                let digits = rest.subrange(i + 1, rest.len() as int);
                let (h, m) = match first_index_where(digits, is_either(':', ':')) {
                    Some(j) => (digits.subrange(0, j), digits.subrange(j + 1, digits.len() as int)),
                    None => if digits.len() == 4 {
                        (digits.subrange(0, 2), digits.subrange(2, 4))
                    } else {
                        (digits, seq!['0', '0'])
                    },
                };
                match (small_number(h), small_number(m)) {
                    (Some(hh), Some(mm)) => if hh <= 23 && mm <= 59 {
                        Some((rest.subrange(0, i), sign * (hh * 3600 + mm * 60)))
                    } else {
                        None
                    },
                    _ => None,
                }
            },
        }
    }
}

/// Whether splitting the zone off `rest` would cut a character in two: an
/// offset without a colon whose text after the sign is four bytes long is
/// split after its second byte, which must then fall between characters.
pub open spec fn zone_split_cuts_a_char(rest: Seq<char>) -> bool {
    !(rest.len() > 0 && (rest.last() == 'Z' || rest.last() == 'z')) && match last_index_where(
        rest,
        is_either('+', '-'),
    ) {
        None => false,
        Some(i) => {
            let digits = rest.subrange(i + 1, rest.len() as int);
            &&& first_index_where(digits, is_either(':', ':')) is None
            &&& encode_utf8(digits).len() == 4
            &&& !is_char_boundary(encode_utf8(digits), 2)
        },
    }
}

/// Whether reading `t` as a timestamp would cut a character in two while
/// splitting off its zone, after its date part has parsed.
pub open spec fn timestamp_cuts_a_char(t: Seq<char>) -> bool {
    match first_index_where(t, is_either('T', ' ')) {
        None => false,
        Some(i) => date_from_text(t.subrange(0, i)) is Some && zone_split_cuts_a_char(
            t.subrange(i + 1, t.len() as int),
        ),
    }
}

/// The seconds field of a time (`SS` or `SS.fff`), if well-formed.
pub open spec fn seconds_field(field: Seq<char>) -> Option<int> {
    let (whole, fraction) = match first_index_where(field, is_either('.', '.')) {
        Some(k) => (field.subrange(0, k), field.subrange(k + 1, field.len() as int)),
        None => (field, seq!['0']),
    };
    if fraction.len() == 0 || !all_digits(fraction) {
        None
    } else {
        small_number(whole)
    }
}

/// Seconds since local midnight for `HH:MM` or `HH:MM:SS[.fff]`.
pub open spec fn clock_of(time: Seq<char>) -> Option<int> {
    match first_index_where(time, is_either(':', ':')) {
        None => None,
        Some(a) => {
            let hour = time.subrange(0, a);
            let rest = time.subrange(a + 1, time.len() as int);
            let (minute, second) = match first_index_where(rest, is_either(':', ':')) {
                None => (rest, Some(0int)),
                Some(b) => {
                    let field = rest.subrange(b + 1, rest.len() as int);
                    (
                        rest.subrange(0, b),
                        if first_index_where(field, is_either(':', ':')) is Some {
                            None
                        } else {
                            seconds_field(field)
                        },
                    )
                },
            };
            match (small_number(hour), small_number(minute), second) {
                (Some(h), Some(m), Some(sec)) => if h <= 23 && m <= 59 && sec <= 60 {
                    Some(h * 3600 + m * 60 + sec)
                } else {
                    None
                },
                _ => None,
            }
        },
    }
}

/// The date of day number `n`, as a `Date`.
pub open spec fn date_of_day(n: int) -> Date {
    Date { year: year_of_day(n) as i32, month: month_of_day(n) as u8, day: day_of_day(n) as u8 }
}

/// An ISO 8601 timestamp, ordered by UTC date then time-of-day.
///
/// Only enough of the grammar is parsed to order two timestamps and recover
/// the date; offsets are normalised to UTC so mixed-offset bundles compare
/// correctly.
#[derive(Debug, Clone, Copy, PartialEq, Eq, Structural, PartialOrd, Ord)]
pub struct Timestamp {
    date: Date,
    /// Seconds since midnight UTC.
    seconds: i32,
}

/// The instant `total` seconds after the start of local day `d`, in UTC.
pub closed spec fn at_utc(d: Date, total: int) -> Timestamp {
    Timestamp { date: date_of_day(d.days() + total / 86_400), seconds: (total % 86_400) as i32 }
}

/// The timestamp a text names: date, `T` or space, time, optional zone.
pub closed spec fn timestamp_of(t: Seq<char>) -> Option<Timestamp> {
    match first_index_where(t, is_either('T', ' ')) {
        None => None,
        Some(i) => match (
            date_from_text(t.subrange(0, i)),
            zone_of(t.subrange(i + 1, t.len() as int)),
        ) {
            (Some(d), Some((time, offset))) => match clock_of(time) {
                Some(clock) => Some(at_utc(d, clock - offset)),
                None => None,
            },
            _ => None,
        },
    }
}

impl Timestamp {
    pub closed spec fn spec_date(self) -> Date {
        self.date
    }

    pub closed spec fn spec_seconds(self) -> int {
        self.seconds as int
    }

    /// Whether `self` is strictly earlier than `other`.
    pub open spec fn earlier(self, other: Timestamp) -> bool {
        self.spec_date().before(other.spec_date()) || (self.spec_date() == other.spec_date()
            && self.spec_seconds() < other.spec_seconds())
    }

    /// The UTC calendar date.
    pub fn date(&self) -> (d: Date)
        ensures
            d == self.spec_date(),
    {
        self.date
    }

    /// Whether `self` is strictly earlier than `other`.
    pub fn is_before(&self, other: &Timestamp) -> (b: bool)
        ensures
            b == self.earlier(*other),
    {
        self.date.is_before(&other.date) || (self.date == other.date && self.seconds
            < other.seconds)
    }
}

} // verus!

verus! {

fn split_offset(cs: &[char], start: usize, end: usize) -> (r: Option<(usize, i64)>)
    requires
        start <= end <= cs@.len(),
    ensures
        r matches Some((te, off)) ==> -86_400 <= off <= 86_400 && start <= te <= end && zone_of(
            cs@.subrange(start as int, end as int),
        ) == Some((cs@.subrange(start as int, te as int), off as int)),
        r is None ==> zone_of(cs@.subrange(start as int, end as int)) is None,
{
    let ghost rest = cs@.subrange(start as int, end as int);
    if end > start && (cs[end - 1] == 'Z' || cs[end - 1] == 'z') {
        assert(rest.drop_last() =~= cs@.subrange(start as int, end - 1));
        return Some((end - 1, 0));
    }
    match find_last_either(cs, start, end, '+', '-') {
        None => {
            return Some((end, 0));
        },
        Some(i) => {
            let sign: i64 = if cs[i] == '-' {
                -1
            } else {
                1
            };
            let ghost digits = rest.subrange(i - start + 1, rest.len() as int);
            assert(digits =~= cs@.subrange(i + 1, end as int));
            assert(rest.subrange(0, i - start) =~= cs@.subrange(start as int, i as int));
            let (hs, he, ms, me, default_minutes) = match find_first_either(
                cs,
                i + 1,
                end,
                ':',
                ':',
            ) {
                Some(j) => {
                    assert(digits.subrange(0, j - (i + 1)) =~= cs@.subrange(i + 1, j as int));
                    assert(digits.subrange(j - (i + 1) + 1, digits.len() as int) =~= cs@.subrange(
                        j + 1,
                        end as int,
                    ));
                    (i + 1, j, j + 1, end, false)
                },
                None => if end - (i + 1) == 4 {
                    assert(digits.subrange(0, 2) =~= cs@.subrange(i + 1, i + 3));
                    assert(digits.subrange(2, 4) =~= cs@.subrange(i + 3, end as int));
                    (i + 1, i + 3, i + 3, end, false)
                } else {
                    (i + 1, end, end, end, true)
                },
            };
            let hours = match parse_small(cs, hs, he) {
                Some(h) => h,
                None => return None,
            };
            let minutes = if default_minutes {
                assert(small_number(seq!['0', '0']) == Some(0int)) by {
                    let zz = seq!['0', '0'];
                    assert(zz.drop_last() =~= seq!['0']);
                    assert(seq!['0'].drop_last() =~= Seq::<char>::empty());
                    assert(seq!['0'].last() == '0');
                    assert(zz.last() == '0');
                    assert(digits_value(Seq::<char>::empty()) == 0);
                    assert(digits_value(seq!['0']) == digits_value(Seq::<char>::empty()) * 10 + 0);
                    assert(digits_value(seq!['0']) == 0);
                    assert(digits_value(zz) == 0);
                    assert forall|k: int| 0 <= k < zz.len() implies #[trigger] crate::text::is_digit(
                        zz[k],
                    ) by {}
                }
                0
            } else {
                match parse_small(cs, ms, me) {
                    Some(m) => m,
                    None => return None,
                }
            };
            if hours <= 23 && minutes <= 59 {
                Some((i, sign * (hours as i64 * 3600 + minutes as i64 * 60)))
            } else {
                None
            }
        },
    }
}

fn seconds_exec(cs: &[char], start: usize, end: usize) -> (r: Option<u32>)
    requires
        start <= end <= cs@.len(),
    ensures
        r matches Some(v) ==> seconds_field(cs@.subrange(start as int, end as int)) == Some(
            v as int,
        ),
        r is None ==> seconds_field(cs@.subrange(start as int, end as int)) is None,
{
    let ghost field = cs@.subrange(start as int, end as int);
    match find_first_either(cs, start, end, '.', '.') {
        Some(k) => {
            assert(field.subrange(0, k - start) =~= cs@.subrange(start as int, k as int));
            assert(field.subrange(k - start + 1, field.len() as int) =~= cs@.subrange(
                k + 1,
                end as int,
            ));
            if k + 1 == end {
                return None;
            }
            if end - (k + 1) > 9 {
                // A fraction too long to read in one go still only has to be digits.
                if !all_digit_chars(cs, k + 1, end) {
                    return None;
                }
            } else if parse_digits(cs, k + 1, end).is_none() {
                return None;
            }
            parse_small(cs, start, k)
        },
        None => {
            assert(crate::text::is_digit(seq!['0'][0]));
            assert(all_digits(seq!['0']));
            parse_small(cs, start, end)
        },
    }
}

fn all_digit_chars(cs: &[char], start: usize, end: usize) -> (b: bool)
    requires
        start <= end <= cs@.len(),
    ensures
        b == all_digits(cs@.subrange(start as int, end as int)),
{
    let mut i = start;
    while i < end
        invariant
            start <= i <= end <= cs@.len(),
            all_digits(cs@.subrange(start as int, i as int)),
        decreases end - i,
    {
        if !('0' <= cs[i] && cs[i] <= '9') {
            assert(!crate::text::is_digit(cs@.subrange(start as int, end as int)[i - start]));
            return false;
        }
        i = i + 1;
        assert forall|j: int| 0 <= j < i - start implies #[trigger] crate::text::is_digit(
            cs@.subrange(start as int, i as int)[j],
        ) by {
            if j < i - 1 - start {
                assert(cs@.subrange(start as int, i as int)[j] == cs@.subrange(
                    start as int,
                    i - 1,
                )[j]);
            }
        }
    }
    true
}

} // verus!

verus! {

fn clock_exec(cs: &[char], start: usize, end: usize) -> (r: Option<i64>)
    requires
        start <= end <= cs@.len(),
    ensures
        r matches Some(v) ==> 0 <= v <= 90_000 && clock_of(cs@.subrange(start as int, end as int))
            == Some(v as int),
        r is None ==> clock_of(cs@.subrange(start as int, end as int)) is None,
{
    let ghost time = cs@.subrange(start as int, end as int);
    let a = match find_first_either(cs, start, end, ':', ':') {
        Some(a) => a,
        None => return None,
    };
    let ghost rest = time.subrange(a - start + 1, time.len() as int);
    assert(rest =~= cs@.subrange(a + 1, end as int));
    assert(time.subrange(0, a - start) =~= cs@.subrange(start as int, a as int));
    let hour = parse_small(cs, start, a);
    let (minute, second) = match find_first_either(cs, a + 1, end, ':', ':') {
        None => (parse_small(cs, a + 1, end), Some(0u32)),
        Some(b) => {
            assert(rest.subrange(0, b - (a + 1)) =~= cs@.subrange(a + 1, b as int));
            assert(rest.subrange(b - (a + 1) + 1, rest.len() as int) =~= cs@.subrange(
                b + 1,
                end as int,
            ));
            let second = if find_first_either(cs, b + 1, end, ':', ':').is_some() {
                None
            } else {
                seconds_exec(cs, b + 1, end)
            };
            (parse_small(cs, a + 1, b), second)
        },
    };
    match (hour, minute, second) {
        (Some(h), Some(m), Some(s)) => if h <= 23 && m <= 59 && s <= 60 {
            Some(h as i64 * 3600 + m as i64 * 60 + s as i64)
        } else {
            None
        },
        _ => None,
    }
}

impl Timestamp {
    fn at(date: Date, total: i64) -> (t: Timestamp)
        requires
            date.is_valid(),
            -200_000 <= total <= 200_000,
        ensures
            t == at_utc(date, total as int),
    {
        let shift: i64 = if total >= 0 {
            total / 86_400
        } else {
            -((-(total + 1)) / 86_400) - 1
        };
        proof {
            vstd::arithmetic::div_mod::lemma_fundamental_div_mod(total as int, 86_400);
            if total < 0 {
                vstd::arithmetic::div_mod::lemma_fundamental_div_mod(-(total + 1), 86_400);
            }
        }
        let seconds = total - shift * 86_400;
        assert(shift == total / 86_400 && seconds == total % 86_400);
        let day = Date::from_days_since_epoch(date.to_days_since_epoch() + shift);
        Timestamp { date: day, seconds: seconds as i32 }
    }

    /// Parses an ISO 8601 timestamp, normalising any offset to UTC.
    #[verifier::rlimit(40)]
    pub fn parse(text: &str) -> (r: Option<Timestamp>)
        requires
            !timestamp_cuts_a_char(text@),
        ensures
            r == timestamp_of(text@),
    {
        let cs = chars_of(text);
        let n = cs.len();
        let i = match find_first_either(cs.as_slice(), 0, n, 'T', ' ') {
            Some(i) => i,
            None => {
                assert(cs@.subrange(0, n as int) =~= cs@);
                return None;
            },
        };
        assert(cs@.subrange(0, n as int) =~= cs@);
        let date_text = substring(cs.as_slice(), 0, i);
        let date = match Date::parse(date_text.as_str()) {
            Some(d) => d,
            None => return None,
        };
        let (time_end, offset) = match split_offset(cs.as_slice(), i + 1, n) {
            Some(z) => z,
            None => return None,
        };
        let clock = match clock_exec(cs.as_slice(), i + 1, time_end) {
            Some(c) => c,
            None => return None,
        };
        Some(Self::at(date, clock - offset))
    }
}

} // verus!

verus! {

proof fn lemma_digit_char_value(d: int)
    requires
        0 <= d < 10,
    ensures
        crate::text::is_digit(crate::text::digit_char(d)),
        crate::text::digit_char(d) as int - '0' as int == d,
{
}

/// The decimal rendering of `n` is all digits, and reads back as `n`.
proof fn lemma_decimal_reads_back(n: nat)
    ensures
        decimal(n).len() >= 1,
        all_digits(decimal(n)),
        digits_value(decimal(n)) == n,
    decreases n,
{
    if n < 10 {
        lemma_digit_char_value(n as int);
        let s = decimal(n);
        assert(s.drop_last() =~= Seq::<char>::empty());
        assert(digits_value(s.drop_last()) == 0);
        assert(s.last() == crate::text::digit_char(n as int));
    } else {
        lemma_decimal_reads_back(n / 10);
        lemma_digit_char_value((n % 10) as int);
        let s = decimal(n);
        assert(s.drop_last() =~= decimal(n / 10));
        assert(s.last() == crate::text::digit_char((n % 10) as int));
        assert(digits_value(s) == digits_value(decimal(n / 10)) * 10 + (n % 10));
        assert((n / 10) * 10 + n % 10 == n);
        assert forall|i: int| 0 <= i < s.len() implies #[trigger] crate::text::is_digit(s[i]) by {
            if i < s.len() - 1 {
                assert(s[i] == decimal(n / 10)[i]);
            }
        }
    }
}

/// `decimal(n)` has at most `k` digits when `n < 10^k`.
proof fn lemma_decimal_short(n: nat, k: nat)
    requires
        k >= 1,
        n < crate::text::pow10(k),
    ensures
        decimal(n).len() <= k,
    decreases n,
{
    if n >= 10 {
        assert(crate::text::pow10(k) == 10 * crate::text::pow10((k - 1) as nat));
        if k == 1 {
            assert(false);
        } else {
            assert(n / 10 < crate::text::pow10((k - 1) as nat));
            lemma_decimal_short(n / 10, (k - 1) as nat);
        }
    }
}

/// Leading zeros do not change what digits read as.
proof fn lemma_zeros_read_as_nothing(k: nat, s: Seq<char>)
    ensures
        digits_value(Seq::new(k, |_i: int| '0') + s) == digits_value(s),
        all_digits(s) ==> all_digits(Seq::new(k, |_i: int| '0') + s),
    decreases s.len(), k,
{
    let z = Seq::new(k, |_i: int| '0');
    if s.len() > 0 {
        lemma_zeros_read_as_nothing(k, s.drop_last());
        assert((z + s).drop_last() =~= z + s.drop_last());
    } else if k > 0 {
        lemma_zeros_read_as_nothing((k - 1) as nat, s);
        assert((z + s).drop_last() =~= Seq::new((k - 1) as nat, |_i: int| '0') + s);
    } else {
        assert(z + s =~= Seq::<char>::empty());
    }
}

/// `n` rendered with at least `w` digits, when it needs no more than `w`,
/// is `w` digits that read back as `n`.
proof fn lemma_padded_reads_back(n: nat, w: nat)
    requires
        w >= 1,
        n < crate::text::pow10(w),
    ensures
        zero_pad(decimal(n), w).len() == w,
        all_digits(zero_pad(decimal(n), w)),
        digits_value(zero_pad(decimal(n), w)) == n,
{
    lemma_decimal_reads_back(n);
    lemma_decimal_short(n, w);
    if decimal(n).len() < w {
        lemma_zeros_read_as_nothing((w - decimal(n).len()) as nat, decimal(n));
    }
}

/// A valid date whose year has at most four digits reads back from its
/// `YYYY-MM-DD` rendering as itself.
pub proof fn lemma_date_text_round_trip(d: Date)
    requires
        d.is_valid(),
        0 <= d.year <= 9999,
    ensures
        date_from_text(date_text(d)) == Some(d),
{
    assert(crate::text::pow10(2) == 100) by {
        reveal_with_fuel(crate::text::pow10, 3);
    }
    assert(crate::text::pow10(4) == 10000) by {
        reveal_with_fuel(crate::text::pow10, 5);
    }
    lemma_padded_reads_back(d.month as nat, 2);
    lemma_padded_reads_back(d.day as nat, 2);
    lemma_padded_reads_back(d.year as nat, 4);
    let year = zero_pad(decimal(d.year as nat), 4);
    let m = zero_pad(decimal(d.month as nat), 2);
    let dd = zero_pad(decimal(d.day as nat), 2);
    let t = date_text(d);
    assert(t == year + seq!['-'] + m + seq!['-'] + dd);
    assert(t.len() == 10);
    assert(t.subrange(0, 4) =~= year);
    assert(t.subrange(5, 7) =~= m);
    assert(t.subrange(8, 10) =~= dd);
    assert(t[4] == '-' && t[7] == '-');
    assert(year_field(year) == Some(d.year as int));
}


proof fn lemma_digit_of_char(c: char)
    requires
        crate::text::is_digit(c),
    ensures
        crate::text::digit_char(c as int - '0' as int) == c,
{
}

proof fn lemma_all_digits_prefix(s: Seq<char>)
    requires
        all_digits(s),
        s.len() > 0,
    ensures
        all_digits(s.drop_last()),
        crate::text::is_digit(s.last()),
{
    assert(crate::text::is_digit(s[s.len() - 1]));
    assert forall|i: int| 0 <= i < s.drop_last().len() implies #[trigger] crate::text::is_digit(
        s.drop_last()[i],
    ) by {
        assert(crate::text::is_digit(s[i]));
    }
}

proof fn lemma_zero_value_is_zeros(s: Seq<char>)
    requires
        all_digits(s),
        digits_value(s) == 0,
    ensures
        s == Seq::new(s.len(), |_i: int| '0'),
    decreases s.len(),
{
    if s.len() > 0 {
        lemma_all_digits_prefix(s);
        crate::text::lemma_digits_value_bound(s.drop_last());
        assert(digits_value(s) == digits_value(s.drop_last()) * 10 + (s.last() as int - '0' as int));
        assert(digits_value(s.drop_last()) == 0);
        assert(s.last() == '0');
        lemma_zero_value_is_zeros(s.drop_last());
        assert forall|i: int| 0 <= i < s.len() implies s[i] == '0' by {
            if i < s.len() - 1 {
                assert(s[i] == s.drop_last()[i]);
                assert(s.drop_last()[i] == Seq::new(s.drop_last().len(), |_i: int| '0')[i]);
            }
        }
        assert(s =~= Seq::new(s.len(), |_i: int| '0'));
    } else {
        assert(s =~= Seq::new(0, |_i: int| '0'));
    }
}

/// A run of digits is its own value rendered with as many digits as it has.
proof fn lemma_digits_print_back(s: Seq<char>)
    requires
        all_digits(s),
        s.len() >= 1,
    ensures
        zero_pad(decimal(digits_value(s) as nat), s.len()) == s,
    decreases s.len(),
{
    let p = s.drop_last();
    let c = s.last();
    lemma_all_digits_prefix(s);
    crate::text::lemma_digits_value_bound(p);
    crate::text::lemma_digits_value_bound(s);
    lemma_digit_of_char(c);
    let v = digits_value(s);
    let dc = c as int - '0' as int;
    assert(v == digits_value(p) * 10 + dc);
    if p.len() == 0 {
        assert(digits_value(p) == 0);
        assert(decimal(v as nat) =~= seq![c]);
        assert(s =~= seq![c]);
    } else if digits_value(p) == 0 {
        lemma_zero_value_is_zeros(p);
        assert(decimal(v as nat) =~= seq![c]);
        assert(zero_pad(seq![c], s.len()) =~= s);
    } else {
        lemma_digits_print_back(p);
        lemma_decimal_short(digits_value(p) as nat, p.len());
        assert(v / 10 == digits_value(p));
        assert(v % 10 == dc);
        assert(decimal(v as nat) == decimal(digits_value(p) as nat).push(c));
        let q = decimal(digits_value(p) as nat);
        if q.len() < p.len() {
            assert(zero_pad(q.push(c), s.len()) =~= zero_pad(q, p.len()).push(c));
        } else {
            assert(zero_pad(q.push(c), s.len()) =~= zero_pad(q, p.len()).push(c));
        }
        assert(s =~= p.push(c));
    }
}

/// Every text `Date::parse` accepts is exactly what the parsed date prints
/// as.
pub proof fn lemma_accepted_text_round_trip(t: Seq<char>)
    requires
        date_from_text(t) is Some,
    ensures
        date_text(date_from_text(t)->0) == t,
{
    let d = date_from_text(t)->0;
    let y = t.subrange(0, 4);
    let m = t.subrange(5, 7);
    let dd = t.subrange(8, 10);
    lemma_digits_print_back(y);
    lemma_digits_print_back(m);
    lemma_digits_print_back(dd);
    crate::text::lemma_digits_value_bound(y);
    assert(crate::text::pow10(4) == 10000) by {
        reveal_with_fuel(crate::text::pow10, 5);
    }
    assert(d.year as int == digits_value(y));
    assert(d.month as int == digits_value(m));
    assert(d.day as int == digits_value(dd));
    assert(t =~= y + seq!['-'] + m + seq!['-'] + dd);
}

} // verus!

verus! {

/// Whether `text` can be read as a timestamp without cutting a character in
/// two; `Timestamp::parse` takes exactly the texts for which this holds.
pub fn timestamp_readable(text: &str) -> (b: bool)
    ensures
        b == !timestamp_cuts_a_char(text@),
{
    let cs = chars_of(text);
    let n = cs.len();
    assert(cs@.subrange(0, n as int) =~= cs@);
    let i = match find_first_either(cs.as_slice(), 0, n, 'T', ' ') {
        Some(i) => i,
        None => {
            return true;
        },
    };
    let date_part = substring(cs.as_slice(), 0, i);
    if Date::parse(date_part.as_str()).is_none() {
        return true;
    }
    let ghost rest = text@.subrange(i + 1, text@.len() as int);
    assert(rest =~= cs@.subrange(i + 1, n as int));
    if n > i + 1 && (cs[n - 1] == 'Z' || cs[n - 1] == 'z') {
        return true;
    }
    let k = match find_last_either(cs.as_slice(), i + 1, n, '+', '-') {
        Some(k) => k,
        None => {
            return true;
        },
    };
    let ghost digits = rest.subrange(k - (i + 1) + 1, rest.len() as int);
    assert(digits =~= cs@.subrange(k + 1, n as int));
    if find_first_either(cs.as_slice(), k + 1, n, ':', ':').is_some() {
        return true;
    }
    let digit_text = substring(cs.as_slice(), k + 1, n);
    let part = digit_text.as_str();
    assert(part@ == digits);
    let encoded = part.as_bytes();
    assert(encoded@ == encode_utf8(digits));
    !(encoded.len() == 4 && !part.is_char_boundary(2))
}

} // verus!

verus! {

/// The instant a timestamp text names, in seconds since
/// 1970-01-01T00:00:00Z: the day number of its date times 86400, plus its
/// time of day, less its offset east of UTC (a fraction of a second is
/// dropped).
pub open spec fn instant_of(t: Seq<char>) -> Option<int> {
    match first_index_where(t, is_either('T', ' ')) {
        None => None,
        Some(i) => match (
            date_from_text(t.subrange(0, i)),
            zone_of(t.subrange(i + 1, t.len() as int)),
        ) {
            (Some(d), Some((time, offset))) => match clock_of(time) {
                Some(clock) => Some(d.days() * 86_400 + clock - offset),
                None => None,
            },
            _ => None,
        },
    }
}

/// Some year brackets every day number between two year starts.
proof fn lemma_year_found(lo: int, hi: int, n: int) -> (y: int)
    requires
        lo < hi,
        year_start(lo) <= n < year_start(hi),
    ensures
        lo <= y < hi,
        year_start(y) <= n < year_start(y + 1),
    decreases hi - lo,
{
    if n < year_start(lo + 1) {
        lo
    } else {
        if lo + 1 == hi {
            assert(false);
        }
        lemma_year_found(lo + 1, hi, n)
    }
}

/// Some month brackets every day of a year.
proof fn lemma_month_found(year: int, m: int, r: int) -> (found: int)
    requires
        1 <= m <= 12,
        days_before_month(year, m) <= r < days_before_month(year, 13),
    ensures
        m <= found <= 12,
        days_before_month(year, found) <= r < days_before_month(year, found + 1),
    decreases 13 - m,
{
    if r < days_before_month(year, m + 1) {
        m
    } else {
        lemma_month_found(year, m + 1, r)
    }
}

/// The date of a day number from year -1 to year 10000 is a real date whose
/// own day number is the one it came from.
proof fn lemma_date_of_day(n: int)
    requires
        year_start(-1) <= n < year_start(10001),
    ensures
        date_of_day(n).is_valid(),
        date_of_day(n).days() == n,
{
    let y = lemma_year_found(-1, 10001, n);
    lemma_year_step(y);
    lemma_month_within_year(y, 12);
    lemma_days_before_month_table(y, 1);
    let m = lemma_month_found(y, 1, n - year_start(y));
    lemma_month_within_year(y, m);
    lemma_civil_of(n, y, m);
}

/// Distinct valid dates: one comes first, and it has the smaller day number.
proof fn lemma_dates_order_as_days(a: Date, b: Date)
    requires
        a.is_valid(),
        b.is_valid(),
    ensures
        a.before(b) <==> a.days() < b.days(),
        a == b <==> a.days() == b.days(),
{
    if a.before(b) {
        lemma_day_number_order(
            a.year as int,
            a.month as int,
            a.day as int,
            b.year as int,
            b.month as int,
            b.day as int,
        );
    }
    if b.before(a) {
        lemma_day_number_order(
            b.year as int,
            b.month as int,
            b.day as int,
            a.year as int,
            a.month as int,
            a.day as int,
        );
    }
}

/// The UTC day and time of day `total` seconds after the start of a date of
/// the years 0 to 9999, with `total` within a day of that start.
proof fn lemma_at_utc(d: Date, total: int)
    requires
        d.is_valid(),
        0 <= d.year <= 9999,
        -86_400 <= total < 2 * 86_400,
    ensures
        at_utc(d, total).spec_date().is_valid(),
        at_utc(d, total).spec_date() == date_of_day((d.days() * 86_400 + total) / 86_400),
        at_utc(d, total).spec_date().days() == (d.days() * 86_400 + total) / 86_400,
        at_utc(d, total).spec_seconds() == (d.days() * 86_400 + total) % 86_400,
{
    lemma_date_in_year(d.year as int, d.month as int, d.day as int);
    lemma_year_start_increases(-1, d.year as int);
    lemma_year_start_increases(d.year as int + 1, 10001);
    lemma_year_step(-1);
    lemma_year_step(10000);
    lemma_fundamental_div_mod(total, 86_400);
    let q = total / 86_400;
    assert(-1 <= q <= 1);
    let n = d.days() + q;
    let inst = d.days() * 86_400 + total;
    assert(inst == n * 86_400 + total % 86_400);
    lemma_div_multiples_vanish_fancy(n, total % 86_400, 86_400);
    assert(inst / 86_400 == n);
    lemma_fundamental_div_mod(inst, 86_400);
    assert(inst % 86_400 == total % 86_400);
    lemma_date_of_day(n);
}

/// The pieces of a parsed timestamp: its UTC day number and seconds into
/// that day, which make up its instant.
proof fn lemma_timestamp_pieces(t: Seq<char>)
    requires
        timestamp_of(t) is Some,
    ensures
        instant_of(t) is Some,
        timestamp_of(t)->0.spec_date().is_valid(),
        timestamp_of(t)->0.spec_date() == date_of_day(instant_of(t)->0 / 86_400),
        timestamp_of(t)->0.spec_date().days() == instant_of(t)->0 / 86_400,
        timestamp_of(t)->0.spec_seconds() == instant_of(t)->0 % 86_400,
{
    let i = first_index_where(t, is_either('T', ' '))->0;
    let ds = t.subrange(0, i);
    let d = date_from_text(ds)->0;
    let rest = t.subrange(i + 1, t.len() as int);
    let zone = zone_of(rest)->0;
    let clock = clock_of(zone.0)->0;
    assert(timestamp_of(t) == Some(at_utc(d, clock - zone.1)));
    assert(instant_of(t) == Some(d.days() * 86_400 + (clock - zone.1)));
    crate::text::lemma_digits_value_bound(ds.subrange(0, 4));
    assert(crate::text::pow10(4) == 10000) by {
        reveal_with_fuel(crate::text::pow10, 5);
    }
    zone_bounds(rest);
    clock_bounds(zone.0);
    lemma_at_utc(d, clock - zone.1);
}

/// A zone designator's offset is less than a day either way.
proof fn zone_bounds(rest: Seq<char>)
    requires
        zone_of(rest) is Some,
    ensures
        zone_of(rest) matches Some((_, offset)) && -86_340 <= offset <= 86_340,
{
    if !(rest.len() > 0 && (rest.last() == 'Z' || rest.last() == 'z')) {
        match last_index_where(rest, is_either('+', '-')) {
            None => {},
            Some(i) => {
                let digits = rest.subrange(i + 1, rest.len() as int);
                let (h, m) = match first_index_where(digits, is_either(':', ':')) {
                    Some(j) => (digits.subrange(0, j), digits.subrange(j + 1, digits.len() as int)),
                    None => if digits.len() == 4 {
                        (digits.subrange(0, 2), digits.subrange(2, 4))
                    } else {
                        (digits, seq!['0', '0'])
                    },
                };
                let hh = small_number(h)->0;
                let mm = small_number(m)->0;
                crate::text::lemma_digits_value_bound(h);
                crate::text::lemma_digits_value_bound(m);
                assert(0 <= hh <= 23 && 0 <= mm <= 59);
                let x = hh * 3600 + mm * 60;
                assert(0 <= x <= 86_340);
                if rest[i] == '-' {
                    assert(zone_of(rest) == Some((rest.subrange(0, i), -1 * x)));
                } else {
                    assert(zone_of(rest) == Some((rest.subrange(0, i), 1 * x)));
                }
            },
        }
    }
}

/// A time of day is at most a day long, leap second included.
proof fn clock_bounds(time: Seq<char>)
    requires
        clock_of(time) is Some,
    ensures
        0 <= clock_of(time)->0 <= 86_400,
{
    let a = first_index_where(time, is_either(':', ':'))->0;
    let hour = time.subrange(0, a);
    let rest = time.subrange(a + 1, time.len() as int);
    crate::text::lemma_digits_value_bound(hour);
    match first_index_where(rest, is_either(':', ':')) {
        None => {
            crate::text::lemma_digits_value_bound(rest);
        },
        Some(b) => {
            let field = rest.subrange(b + 1, rest.len() as int);
            crate::text::lemma_digits_value_bound(rest.subrange(0, b));
            let whole = match first_index_where(field, is_either('.', '.')) {
                Some(k) => field.subrange(0, k),
                None => field,
            };
            crate::text::lemma_digits_value_bound(whole);
        },
    }
}

/// Parsed timestamps compare as the instants they name: whatever their
/// offsets, one is earlier than another exactly when its UTC instant is, two
/// are equal exactly when their instants are, and a timestamp's date is the
/// UTC date of its instant.
pub proof fn lemma_timestamps_order_as_instants(a: Seq<char>, b: Seq<char>)
    requires
        timestamp_of(a) is Some,
        timestamp_of(b) is Some,
    ensures
        instant_of(a) is Some,
        instant_of(b) is Some,
        timestamp_of(a)->0.earlier(timestamp_of(b)->0) <==> instant_of(a)->0 < instant_of(b)->0,
        timestamp_of(a)->0 == timestamp_of(b)->0 <==> instant_of(a)->0 == instant_of(b)->0,
        timestamp_of(a)->0.spec_date() == date_of_day(instant_of(a)->0 / 86_400),
{
    lemma_timestamp_pieces(a);
    lemma_timestamp_pieces(b);
    let ta = timestamp_of(a)->0;
    let tb = timestamp_of(b)->0;
    let ia = instant_of(a)->0;
    let ib = instant_of(b)->0;
    lemma_dates_order_as_days(ta.spec_date(), tb.spec_date());
    lemma_fundamental_div_mod(ia, 86_400);
    lemma_fundamental_div_mod(ib, 86_400);
    if ta.spec_date() == tb.spec_date() && ta.spec_seconds() == tb.spec_seconds() {
        assert(ta == tb);
    }
}

} // verus!

//! Calendar dates in the proleptic Gregorian calendar, restricted to the
//! years 0 through 9999 (the range of the `YYYY-MM-DD` metadata syntax).
//!
//! Every date maps to a day number (days since 0000-01-01); interval
//! arithmetic and comparisons are specified over that mapping.

use vstd::arithmetic::div_mod::lemma_div_is_ordered_by_denominator;
use vstd::arithmetic::div_mod::lemma_fundamental_div_mod;
use vstd::prelude::*;

verus! {

/// A calendar date, valid when `is_valid` holds.
#[derive(Clone, Copy, Debug, PartialEq, Eq, Structural)]
pub struct Date {
    pub year: u32,
    pub month: u32,
    pub day: u32,
}

pub open spec fn is_leap_year(y: int) -> bool {
    y % 4 == 0 && (y % 100 != 0 || y % 400 == 0)
}

pub open spec fn days_in_month(y: int, m: int) -> int {
    if m == 2 {
        if is_leap_year(y) {
            29
        } else {
            28
        }
    } else if m == 4 || m == 6 || m == 9 || m == 11 {
        30
    } else {
        31
    }
}

/// Days in the months `1 .. m` of year `y`.
pub open spec fn days_before_month(y: int, m: int) -> int
    decreases m,
{
    if m <= 1 {
        0
    } else {
        days_before_month(y, m - 1) + days_in_month(y, m - 1)
    }
}

/// Number of leap years in `0 .. y` (year 0 is a leap year).
pub open spec fn leap_years_before(y: int) -> int {
    if y <= 0 {
        0
    } else {
        1 + (y - 1) / 4 - (y - 1) / 100 + (y - 1) / 400
    }
}

/// Days since 0000-01-01.
pub open spec fn day_number(d: Date) -> int {
    d.year * 365 + leap_years_before(d.year as int) + days_before_month(
        d.year as int,
        d.month as int,
    ) + d.day - 1
}

impl Date {
    pub open spec fn is_valid(self) -> bool {
        self.year <= 9999 && 1 <= self.month <= 12 && 1 <= self.day <= days_in_month(
            self.year as int,
            self.month as int,
        )
    }

    /// The latest representable date is 9999-12-31; its day number bounds
    /// every valid date's.
    pub open spec fn max_day_number() -> int {
        9999 * 365 + leap_years_before(9999) + days_before_month(9999, 12) + 31 - 1
    }

    pub fn new(year: u32, month: u32, day: u32) -> (r: Option<Date>)
        ensures
            ({
                let d = Date { year, month, day };
                match r {
                    Some(v) => v == d && d.is_valid(),
                    None => !d.is_valid(),
                }
            }),
    {
        let d = Date { year, month, day };
        if year <= 9999 && 1 <= month && month <= 12 && 1 <= day && day <= days_in_month_exec(
            year,
            month,
        ) {
            Some(d)
        } else {
            None
        }
    }
}

pub fn is_leap_year_exec(y: u32) -> (r: bool)
    ensures
        r == is_leap_year(y as int),
{
    y % 4 == 0 && (y % 100 != 0 || y % 400 == 0)
}

pub fn days_in_month_exec(y: u32, m: u32) -> (r: u32)
    ensures
        r == days_in_month(y as int, m as int),
{
    if m == 2 {
        if is_leap_year_exec(y) {
            29
        } else {
            28
        }
    } else if m == 4 || m == 6 || m == 9 || m == 11 {
        30
    } else {
        31
    }
}

pub proof fn lemma_days_before_month_values(y: int)
    ensures
        days_before_month(y, 1) == 0,
        days_before_month(y, 2) == 31,
        days_before_month(y, 3) == 31 + days_in_month(y, 2),
        days_before_month(y, 4) == 62 + days_in_month(y, 2),
        days_before_month(y, 5) == 92 + days_in_month(y, 2),
        days_before_month(y, 6) == 123 + days_in_month(y, 2),
        days_before_month(y, 7) == 153 + days_in_month(y, 2),
        days_before_month(y, 8) == 184 + days_in_month(y, 2),
        days_before_month(y, 9) == 215 + days_in_month(y, 2),
        days_before_month(y, 10) == 245 + days_in_month(y, 2),
        days_before_month(y, 11) == 276 + days_in_month(y, 2),
        days_before_month(y, 12) == 306 + days_in_month(y, 2),
        days_before_month(y, 13) == 337 + days_in_month(y, 2),
{
    reveal_with_fuel(days_before_month, 14);
}

pub fn days_before_month_exec(y: u32, m: u32) -> (r: u32)
    requires
        1 <= m <= 12,
    ensures
        r == days_before_month(y as int, m as int),
{
    proof {
        lemma_days_before_month_values(y as int);
    }
    let base: u32 = match m {
        1 => 0,
        2 => 31,
        3 => 59,
        4 => 90,
        5 => 120,
        6 => 151,
        7 => 181,
        8 => 212,
        9 => 243,
        10 => 273,
        11 => 304,
        _ => 334,
    };
    if m > 2 && is_leap_year_exec(y) {
        base + 1
    } else {
        base
    }
}

/// Days since 0000-01-01, computed with the closed leap-year formula.
pub fn to_day_number(d: &Date) -> (r: u32)
    requires
        d.is_valid(),
    ensures
        r == day_number(*d),
{
    proof {
        if d.year >= 1 {
            lemma_div_is_ordered_by_denominator(d.year - 1, 4, 100);
            lemma_div_is_ordered_by_denominator(d.year - 1, 100, 400);
        }
    }
    let leaps: u32 = if d.year == 0 {
        0
    } else {
        1 + (d.year - 1) / 4 - (d.year - 1) / 100 + (d.year - 1) / 400
    };
    assert(leaps == leap_years_before(d.year as int));
    proof {
        lemma_days_before_month_values(d.year as int);
        assert(leaps <= 2500);
        assert(days_before_month(d.year as int, d.month as int) <= 366);
    }
    let r = d.year * 365 + leaps + days_before_month_exec(d.year, d.month) + d.day - 1;
    r
}

/// Day-number difference `a - b`, which is negative when `a` is earlier.
pub fn days_between(a: &Date, b: &Date) -> (r: i64)
    requires
        a.is_valid(),
        b.is_valid(),
    ensures
        r == day_number(*a) - day_number(*b),
{
    let na = to_day_number(a);
    let nb = to_day_number(b);
    na as i64 - nb as i64
}

/// `a <= b` in calendar order, specified through day numbers.
pub fn date_le(a: &Date, b: &Date) -> (r: bool)
    requires
        a.is_valid(),
        b.is_valid(),
    ensures
        r == (day_number(*a) <= day_number(*b)),
{
    to_day_number(a) <= to_day_number(b)
}

/// `a < b` in calendar order.
pub fn date_lt(a: &Date, b: &Date) -> (r: bool)
    requires
        a.is_valid(),
        b.is_valid(),
    ensures
        r == (day_number(*a) < day_number(*b)),
{
    to_day_number(a) < to_day_number(b)
}

proof fn lemma_div_step(k: int, q: int)
    requires
        k >= 1,
        q >= 1,
    ensures
        k / q - (k - 1) / q == if k % q == 0 {
            1int
        } else {
            0int
        },
{
    let a = (k - 1) / q;
    let r = (k - 1) % q;
    lemma_fundamental_div_mod(k - 1, q);
    assert(k - 1 == q * a + r);
    if r + 1 < q {
        assert(k == q * a + (r + 1));
        assert(k / q == a && k % q == r + 1) by (nonlinear_arith)
            requires
                k == q * a + (r + 1),
                0 <= r + 1 < q,
        ;
    } else {
        assert(r + 1 == q);
        assert(k == q * (a + 1)) by (nonlinear_arith)
            requires
                k - 1 == q * a + r,
                r + 1 == q,
        ;
        assert(k / q == a + 1 && k % q == 0) by (nonlinear_arith)
            requires
                k == q * (a + 1),
                q >= 1,
        ;
    }
}

proof fn lemma_leap_years_step(y: int)
    requires
        y >= 0,
    ensures
        leap_years_before(y + 1) - leap_years_before(y) == if is_leap_year(y) {
            1int
        } else {
            0int
        },
{
    if y == 0 {
        assert(leap_years_before(1) == 1);
        assert(is_leap_year(0));
    } else {
        lemma_div_step(y, 4);
        lemma_div_step(y, 100);
        lemma_div_step(y, 400);
        if y % 400 == 0 {
            assert(y % 4 == 0 && y % 100 == 0) by (nonlinear_arith)
                requires
                    y % 400 == 0,
                    y >= 1,
            ;
        } else if y % 100 == 0 {
            assert(y % 4 == 0) by (nonlinear_arith)
                requires
                    y % 100 == 0,
                    y >= 1,
            ;
        }
    }
}

/// The successor of a valid, non-maximal date: one day later.
pub fn next_day(d: &Date) -> (r: Date)
    requires
        d.is_valid(),
        !(d.year == 9999 && d.month == 12 && d.day == 31),
    ensures
        r.is_valid(),
        day_number(r) == day_number(*d) + 1,
{
    let dim = days_in_month_exec(d.year, d.month);
    if d.day < dim {
        Date { year: d.year, month: d.month, day: d.day + 1 }
    } else if d.month < 12 {
        let r = Date { year: d.year, month: d.month + 1, day: 1 };
        proof {
            lemma_days_before_month_values(d.year as int);
        }
        r
    } else {
        let r = Date { year: d.year + 1, month: 1, day: 1 };
        proof {
            lemma_days_before_month_values(d.year as int);
            lemma_leap_years_step(d.year as int);
        }
        r
    }
}

/// `d` advanced by `n` days.
pub fn add_days(d: &Date, n: u32) -> (r: Date)
    requires
        d.is_valid(),
        day_number(*d) + n <= Date::max_day_number(),
    ensures
        r.is_valid(),
        day_number(r) == day_number(*d) + n,
{
    let mut cur = *d;
    let mut i: u32 = 0;
    while i < n
        invariant
            i <= n,
            cur.is_valid(),
            day_number(cur) == day_number(*d) + i,
            day_number(*d) + n <= Date::max_day_number(),
        decreases n - i,
    {
        proof {
            if cur.year == 9999 && cur.month == 12 && cur.day == 31 {
                lemma_days_before_month_values(9999);
                assert(day_number(cur) == Date::max_day_number());
            }
        }
        cur = next_day(&cur);
        i = i + 1;
    }
    cur
}


/// The day-number range of valid dates.
pub proof fn lemma_day_number_range(d: Date)
    requires
        d.is_valid(),
    ensures
        0 <= day_number(d),
        Date::max_day_number() == 3652424,
{
    lemma_days_before_month_values(d.year as int);
    lemma_days_before_month_values(9999);
    if d.year >= 1 {
        lemma_div_is_ordered_by_denominator(d.year - 1, 4, 100);
        lemma_div_is_ordered_by_denominator(d.year - 1, 100, 400);
    }
    assert(leap_years_before(d.year as int) >= 0);
    assert(days_before_month(d.year as int, d.month as int) >= 0);
    assert(leap_years_before(9999) == 1 + 9998int / 4 - 9998int / 100 + 9998int / 400);
}


/// The `YYYY-MM-DD` text of a date (four-digit year, zero-padded).
pub open spec fn date_text(d: Date) -> Seq<u8> {
    seq![
        (48 + d.year / 1000) as u8,
        (48 + (d.year / 100) % 10) as u8,
        (48 + (d.year / 10) % 10) as u8,
        (48 + d.year % 10) as u8,
        45u8,
        (48 + d.month / 10) as u8,
        (48 + d.month % 10) as u8,
        45u8,
        (48 + d.day / 10) as u8,
        (48 + d.day % 10) as u8,
    ]
}

/// Write a date as `YYYY-MM-DD`.
pub fn format_date(d: &Date) -> (r: Vec<u8>)
    requires
        d.is_valid(),
    ensures
        r@ == date_text(*d),
{
    let mut v: Vec<u8> = Vec::new();
    v.push(48 + ((d.year / 1000) as u8));
    v.push(48 + (((d.year / 100) % 10) as u8));
    v.push(48 + (((d.year / 10) % 10) as u8));
    v.push(48 + ((d.year % 10) as u8));
    v.push(45);
    v.push(48 + ((d.month / 10) as u8));
    v.push(48 + ((d.month % 10) as u8));
    v.push(45);
    v.push(48 + ((d.day / 10) as u8));
    v.push(48 + ((d.day % 10) as u8));
    proof {
        assert(v@ =~= date_text(*d));
    }
    v
}


proof fn lemma_year_base_monotone(x: int, y: int)
    requires
        0 <= x <= y,
    ensures
        x * 365 + leap_years_before(x) <= y * 365 + leap_years_before(y),
    decreases y - x,
{
    if x < y {
        lemma_year_base_monotone(x + 1, y);
        lemma_leap_years_step(x);
    }
}

/// Two valid dates with the same day number are the same date.
pub proof fn lemma_day_number_injective(a: Date, b: Date)
    requires
        a.is_valid(),
        b.is_valid(),
        day_number(a) == day_number(b),
    ensures
        a == b,
{
    if a != b {
        if a.year < b.year || (a.year == b.year && a.month < b.month) || (a.year == b.year
            && a.month == b.month && a.day < b.day) {
            lemma_day_number_lt(a, b);
        } else {
            lemma_day_number_lt(b, a);
        }
    }
}

/// Day numbers respect the calendar order of valid dates.
proof fn lemma_day_number_lt(a: Date, b: Date)
    requires
        a.is_valid(),
        b.is_valid(),
        (a.year < b.year) || (a.year == b.year && a.month < b.month) || (a.year == b.year
            && a.month == b.month && a.day < b.day),
    ensures
        day_number(a) < day_number(b),
{
    lemma_days_before_month_values(a.year as int);
    lemma_days_before_month_values(b.year as int);
    if a.year < b.year {
        lemma_leap_years_step(a.year as int);
        lemma_year_base_monotone(a.year + 1, b.year as int);
        assert(days_before_month(a.year as int, a.month as int) + days_in_month(
            a.year as int,
            a.month as int,
        ) <= 365 + if is_leap_year(a.year as int) {
            1int
        } else {
            0int
        });
    } else if a.month < b.month {
        assert(days_before_month(a.year as int, a.month as int) + days_in_month(
            a.year as int,
            a.month as int,
        ) <= days_before_month(a.year as int, b.month as int));
    }
}

} // verus!

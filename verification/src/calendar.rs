//! Proleptic Gregorian calendar arithmetic on Unix timestamps.
//!
//! The model counts days from 1970-01-01 year by year; the executable
//! functions use closed-form leap-year counts and are proved equal to it.

use vstd::prelude::*;
use vstd::arithmetic::div_mod::{
    lemma_fundamental_div_mod,
    lemma_fundamental_div_mod_converse,
};

verus! {

/// Seconds in a day.
pub const SECS_PER_DAY: i64 = 86400;

/// Largest magnitude of a Unix timestamp whose day number fits in 32 bits,
/// the range in which timestamps are converted to calendar dates.
pub const MAX_UNIX: i64 = 185_000_000_000_000;

/// True when `unix` can be converted to a calendar date.
pub open spec fn unix_in_domain(unix: int) -> bool {
    -185_000_000_000_000 <= unix <= 185_000_000_000_000
}

/// Gregorian leap-year rule.
pub open spec fn is_leap(y: int) -> bool {
    y % 4 == 0 && (y % 100 != 0 || y % 400 == 0)
}

/// Number of days in year `y`.
pub open spec fn year_len(y: int) -> int {
    if is_leap(y) {
        366
    } else {
        365
    }
}

/// Number of days from 1970-01-01 to January 1 of year `y` (negative before 1970).
pub open spec fn days_before_year(y: int) -> int
    decreases (if y >= 1970 { y - 1970 } else { 1970 - y }),
{
    if y == 1970 {
        0
    } else if y > 1970 {
        days_before_year(y - 1) + year_len(y - 1)
    } else {
        days_before_year(y + 1) - year_len(y)
    }
}

/// Unix timestamp of January 1 00:00:00 UTC of year `y`.
pub open spec fn year_start_unix(y: int) -> int {
    days_before_year(y) * 86400
}

/// Day number (days since 1970-01-01) of the instant `unix`.
pub open spec fn day_of_unix(unix: int) -> int {
    unix / 86400
}

/// Day `d` falls in year `y`.
pub open spec fn day_in_year(d: int, y: int) -> bool {
    days_before_year(y) <= d < days_before_year(y + 1)
}

/// The calendar year (UTC) containing day number `d`.
pub open spec fn year_of_day(d: int) -> int {
    choose|y: int| day_in_year(d, y)
}

/// The calendar year (UTC) containing the instant `unix`.
pub open spec fn year_of_unix(unix: int) -> int {
    year_of_day(day_of_unix(unix))
}

/// Day of week of day number `d` (0 = Sunday); 1970-01-01 was a Thursday.
pub open spec fn weekday_of_day(d: int) -> int {
    (d + 4) % 7
}

/// Number of leap years in `1..=y` (extended to all integers by the same formula).
pub open spec fn leaps_through(y: int) -> int {
    y / 4 - y / 100 + y / 400
}

// ---------------------------------------------------------------------------
// Lemmas
// ---------------------------------------------------------------------------

/// Shifting the dividend by a multiple of the divisor shifts the quotient and
/// keeps the remainder.
pub proof fn lemma_div_mod_shift(x: int, d: int, k: int)
    requires
        d > 0,
    ensures
        (x + d * k) / d == x / d + k,
        (x + d * k) % d == x % d,
{
    lemma_fundamental_div_mod(x, d);
    let q = x / d;
    let r = x % d;
    assert(x + d * k == (q + k) * d + r) by (nonlinear_arith)
        requires
            x == d * q + r,
    ;
    lemma_fundamental_div_mod_converse(x + d * k, d, q + k, r);
}

/// Moving the dividend down by one changes the floor quotient exactly at
/// multiples of the divisor.
pub proof fn lemma_floor_step(y: int, d: int)
    requires
        d > 0,
    ensures
        y / d - (y - 1) / d == (if y % d == 0 { 1int } else { 0int }),
{
    lemma_fundamental_div_mod(y, d);
    let q = y / d;
    let r = y % d;
    if r > 0 {
        assert(y - 1 == q * d + (r - 1)) by (nonlinear_arith)
            requires
                y == d * q + r,
        ;
        lemma_fundamental_div_mod_converse(y - 1, d, q, r - 1);
    } else {
        assert(y - 1 == (q - 1) * d + (d - 1)) by (nonlinear_arith)
            requires
                y == d * q + r,
                r == 0,
        ;
        lemma_fundamental_div_mod_converse(y - 1, d, q - 1, d - 1);
    }
}

/// `leaps_through` grows by one exactly at leap years.
pub proof fn lemma_leaps_step(y: int)
    ensures
        leaps_through(y) - leaps_through(y - 1) == (if is_leap(y) { 1int } else { 0int }),
{
    lemma_floor_step(y, 4);
    lemma_floor_step(y, 100);
    lemma_floor_step(y, 400);
    // A multiple of 400 is a multiple of 100, and a multiple of 100 of 4.
    lemma_fundamental_div_mod(y, 400);
    lemma_fundamental_div_mod(y, 100);
    if y % 400 == 0 {
        let q = y / 400;
        assert(y == 100 * (4 * q) + 0);
        lemma_fundamental_div_mod_converse(y, 100, 4 * q, 0);
    }
    if y % 100 == 0 {
        let q = y / 100;
        assert(y == 4 * (25 * q) + 0);
        lemma_fundamental_div_mod_converse(y, 4, 25 * q, 0);
    }
}

/// Closed form of the day count before a year.
pub proof fn lemma_days_before_year_closed(y: int)
    ensures
        days_before_year(y) == 365 * (y - 1970) + leaps_through(y - 1) - 477,
    decreases (if y >= 1970 { y - 1970 } else { 1970 - y }),
{
    if y == 1970 {
        assert(leaps_through(1969) == 477);
    } else if y > 1970 {
        lemma_days_before_year_closed(y - 1);
        lemma_leaps_step(y - 1);
    } else {
        lemma_days_before_year_closed(y + 1);
        lemma_leaps_step(y);
    }
}

/// A 400-year cycle holds exactly 146097 days.
pub proof fn lemma_days_before_year_cycle(y: int, k: int)
    ensures
        days_before_year(y + 400 * k) == days_before_year(y) + 146097 * k,
{
    lemma_days_before_year_closed(y);
    lemma_days_before_year_closed(y + 400 * k);
    lemma_div_mod_shift(y - 1, 4, 100 * k);
    lemma_div_mod_shift(y - 1, 100, 4 * k);
    lemma_div_mod_shift(y - 1, 400, k);
}

/// Later years start later.
pub proof fn lemma_days_before_year_monotonic(a: int, b: int)
    requires
        a <= b,
    ensures
        days_before_year(a) + 365 * (b - a) <= days_before_year(b),
        days_before_year(b) <= days_before_year(a) + 366 * (b - a),
    decreases b - a,
{
    if a < b {
        lemma_days_before_year_monotonic(a, b - 1);
        assert(days_before_year(b) == days_before_year(b - 1) + year_len(b - 1)) by {
            if b > 1970 {
            } else {
                assert(b - 1 < 1970);
            }
        }
    }
}

/// Every day belongs to exactly one year.
pub proof fn lemma_year_of_day(d: int, y: int)
    requires
        day_in_year(d, y),
    ensures
        year_of_day(d) == y,
{
    assert(day_in_year(d, y));
    let z = year_of_day(d);
    assert(day_in_year(d, z));
    if z < y {
        lemma_days_before_year_monotonic(z + 1, y);
    } else if z > y {
        lemma_days_before_year_monotonic(y + 1, z);
    }
}

// ---------------------------------------------------------------------------
// Executable functions
// ---------------------------------------------------------------------------

/// Reports whether `year` is a leap year.
pub fn is_leap_year(year: i32) -> (r: bool)
    ensures
        r == is_leap(year as int),
{
    let a = year % 4 == 0;
    let b = year % 100 != 0;
    let c = year % 400 == 0;
    a && (b || c)
}

/// Number of days from 1970-01-01 to January 1 of `year`.
pub fn days_before(year: i32) -> (r: i64)
    ensures
        r == days_before_year(year as int),
        -800_000_000_000 < r < 800_000_000_000,
{
    // Shift by whole 400-year cycles so that every division is of a
    // non-negative number.
    let t: u64 = (year as i64 + 2_399_999_999) as u64;
    let l: i64 = (t / 4) as i64 - (t / 100) as i64 + (t / 400) as i64 - 582_000_000;
    proof {
        let y = year as int;
        lemma_div_mod_shift(y - 1, 4, 600_000_000);
        lemma_div_mod_shift(y - 1, 100, 24_000_000);
        lemma_div_mod_shift(y - 1, 400, 6_000_000);
        assert(l == leaps_through(y - 1));
        lemma_days_before_year_closed(y);
        assert((y - 1) / 4 <= (y - 1) / 4 + 1);
    }
    365 * (year as i64 - 1970) + l - 477
}

/// Returns the Unix timestamp for January 1 00:00:00 UTC of `year`.
pub fn year_to_unix(year: i32) -> (r: i64)
    ensures
        r == year_start_unix(year as int),
        -70_000_000_000_000_000 < r < 70_000_000_000_000_000,
{
    days_before(year) * SECS_PER_DAY
}

/// Converts a Unix timestamp to (year, day-of-year [0-based], second-of-day).
pub fn unix_to_yday_sec(unix: i64) -> (r: (i32, i32, i32))
    requires
        unix_in_domain(unix as int),
    ensures
        day_in_year(day_of_unix(unix as int), r.0 as int),
        r.0 == year_of_unix(unix as int),
        r.1 == day_of_unix(unix as int) - days_before_year(r.0 as int),
        r.2 == unix % 86400,
        0 <= r.1 < year_len(r.0 as int),
        0 <= r.2 < 86400,
        unix == year_start_unix(r.0 as int) + r.1 * 86400 + r.2,
        -8_100_000 < r.0 < 8_100_000,
{
    // Floor division by a day, via a non-negative shifted value.
    let shifted: u64 = (unix + 86400 * 2_200_000_000) as u64;
    let d: i64 = (shifted / 86400) as i64 - 2_200_000_000;
    let sec: i64 = (shifted % 86400) as i64;
    proof {
        lemma_div_mod_shift(unix as int, 86400, 2_200_000_000);
        lemma_fundamental_div_mod(unix as int, 86400);
    }
    assert(d == day_of_unix(unix as int));
    // Start from the enclosing 400-year cycle, then walk forward.
    let ds: u64 = (d + 146097 * 20_000) as u64;
    let q: i64 = (ds / 146097) as i64 - 20_000;
    proof {
        lemma_div_mod_shift(d as int, 146097, 20_000);
        lemma_fundamental_div_mod(d as int, 146097);
        lemma_days_before_year_cycle(1970, q as int);
    }
    let mut year: i32 = (1970 + 400 * q) as i32;
    assert(days_before_year(year as int) == 146097 * q);
    let ghost top = year + 400;
    proof {
        lemma_days_before_year_cycle(year as int, 1);
    }
    let mut start = days_before(year);
    let mut next = days_before(year + 1);
    while next <= d
        invariant
            1970 + 400 * q <= year < top,
            top == 1970 + 400 * q + 400,
            -20_000 <= q <= 20_000,
            start == days_before_year(year as int),
            next == days_before_year(year as int + 1),
            start <= d,
            d < days_before_year(top as int),
        decreases d - start,
    {
        year = year + 1;
        start = next;
        proof {
            if year + 1 > top {
                lemma_days_before_year_monotonic(top as int, year + 1);
            }
            lemma_days_before_year_monotonic(year as int, year + 1);
        }
        next = days_before(year + 1);
        proof {
            if year >= top {
                lemma_days_before_year_monotonic(top as int, year as int);
            }
        }
    }
    proof {
        lemma_year_of_day(d as int, year as int);
        lemma_days_before_year_monotonic(year as int, year + 1);
        assert(days_before_year(year + 1) == days_before_year(year as int) + year_len(year as int)) by {
            if year + 1 > 1970 {
            } else {
            }
        }
    }
    (year, (d - start) as i32, sec as i32)
}

/// Returns the calendar year (UTC) containing the given Unix timestamp.
pub fn year_of(unix: i64) -> (r: i32)
    requires
        unix_in_domain(unix as int),
    ensures
        r == year_of_unix(unix as int),
        day_in_year(day_of_unix(unix as int), r as int),
        -8_100_000 < r < 8_100_000,
{
    unix_to_yday_sec(unix).0
}

/// Day of week (0 = Sunday) of January 1 of `year`.
pub fn jan1_weekday(year: i32) -> (r: i32)
    ensures
        r == weekday_of_day(days_before_year(year as int)),
        0 <= r < 7,
{
    let d = days_before(year);
    let shifted: u64 = (d + 4 + 7 * 200_000_000_000) as u64;
    proof {
        lemma_div_mod_shift(d + 4, 7, 200_000_000_000);
        lemma_fundamental_div_mod(d + 4, 7);
    }
    (shifted % 7) as i32
}

} // verus!

//! Parser and evaluator for POSIX-style `TZ` strings.
//!
//! A TZif file may carry a trailing POSIX TZ rule (the "footer") describing how
//! daylight-saving transitions continue past the last stored transition. This
//! module parses such strings (e.g. `EST5EDT,M3.2.0,M11.1.0`) and computes the
//! offset in effect at any instant.

use vstd::prelude::*;
use vstd::string::*;

use crate::calendar::{
    day_in_year, days_before_year, is_leap, is_leap_year, jan1_weekday, unix_in_domain,
    unix_to_yday_sec, weekday_of_day, year_of_unix, year_start_unix, year_to_unix,
};
use crate::error::Error;
use crate::text::chars_vec;

verus! {

/// Identifies the type of transition rule in a POSIX TZ string.
#[derive(Debug, Clone, Copy, PartialEq, Eq, Structural)]
pub enum RuleKind {
    /// `Jn` format: Julian day (1-365); February 29 is never counted.
    Julian,
    /// `n` format: zero-based day of year (0-365); February 29 is counted.
    DayOfYear,
    /// `Mm.w.d` format: month, week, and day-of-week.
    MonthWeekDay,
}

/// Specifies when a DST transition occurs within a year.
#[derive(Debug, Clone, Copy, PartialEq, Eq, Structural)]
pub struct TransitionRule {
    /// Which interpretation [`day`](Self::day) takes.
    pub kind: RuleKind,
    /// Julian day (1-365), day-of-year (0-365), or day-of-week (0 = Sunday).
    pub day: i32,
    /// Week of month (1-5); only meaningful for [`RuleKind::MonthWeekDay`].
    pub week: i32,
    /// Month (1-12); only meaningful for [`RuleKind::MonthWeekDay`].
    pub mon: i32,
    /// Seconds after midnight (default 7200 = 02:00:00).
    pub time: i32,
}

/// A parsed POSIX-style `TZ` string, e.g. `EST5EDT,M3.2.0,M11.1.0`.
#[derive(Debug, Clone, Copy, PartialEq, Eq)]
pub struct PosixTz<'a> {
    /// Standard time abbreviation.
    pub std_abbrev: &'a str,
    /// Standard time UTC offset in seconds (positive = east of UTC).
    pub std_offset: i32,
    /// DST abbreviation; empty if the rule defines no daylight saving time.
    pub dst_abbrev: &'a str,
    /// DST UTC offset in seconds (positive = east of UTC).
    pub dst_offset: i32,
    /// Rule for the standard → DST transition.
    pub start: TransitionRule,
    /// Rule for the DST → standard transition.
    pub end: TransitionRule,
}

/// The mathematical content of a [`PosixTz`].
pub struct PosixTzModel {
    pub std_abbrev: Seq<char>,
    pub std_offset: int,
    pub dst_abbrev: Seq<char>,
    pub dst_offset: int,
    pub start: TransitionRule,
    pub end: TransitionRule,
}

impl<'a> View for PosixTz<'a> {
    type V = PosixTzModel;

    open spec fn view(&self) -> PosixTzModel {
        PosixTzModel {
            std_abbrev: self.std_abbrev@,
            std_offset: self.std_offset as int,
            dst_abbrev: self.dst_abbrev@,
            dst_offset: self.dst_offset as int,
            start: self.start,
            end: self.end,
        }
    }
}

/// Largest magnitude of a parsed `[+-]hh[:mm[:ss]]` offset (167:59:59).
pub open spec fn max_offset() -> int {
    604799
}

impl TransitionRule {
    /// The rule's fields lie in their documented ranges.
    pub open spec fn wf(self) -> bool {
        &&& match self.kind {
            RuleKind::Julian => 1 <= self.day <= 365,
            RuleKind::DayOfYear => 0 <= self.day <= 365,
            RuleKind::MonthWeekDay => {
                &&& 1 <= self.mon <= 12
                &&& 1 <= self.week <= 5
                &&& 0 <= self.day <= 6
            },
        }
        &&& -max_offset() <= self.time <= max_offset()
    }
}

impl PosixTzModel {
    /// The rule defines daylight saving time.
    pub open spec fn has_dst(self) -> bool {
        self.dst_abbrev.len() > 0
    }

    /// Offsets lie within a parsed offset (plus the one-hour DST default)
    /// of UTC, and the transition rules are well formed when DST is defined.
    pub open spec fn wf(self) -> bool {
        &&& -max_offset() <= self.std_offset <= max_offset()
        &&& -max_offset() <= self.dst_offset <= max_offset() + 3600
        &&& self.has_dst() ==> self.start.wf() && self.end.wf()
    }

    /// Seconds since the start of `year` (UTC) at which DST begins.
    pub open spec fn dst_start_sec(self, year: int) -> int {
        rule_year_sec(self.start, year, self.std_offset)
    }

    /// Seconds since the start of `year` (UTC) at which DST ends.
    pub open spec fn dst_end_sec(self, year: int) -> int {
        rule_year_sec(self.end, year, self.dst_offset)
    }

    /// Whether daylight saving time is in effect at `unix`.
    pub open spec fn in_dst(self, unix: int) -> bool {
        if !self.has_dst() {
            false
        } else {
            let year = year_of_unix(unix);
            let year_sec = unix - year_start_unix(year);
            let s = self.dst_start_sec(year);
            let e = self.dst_end_sec(year);
            if s < e {
                s <= year_sec && year_sec < e
            } else {
                year_sec >= s || year_sec < e
            }
        }
    }

    /// DST start and end of `year` as Unix timestamps.
    pub open spec fn transitions_of_year(self, year: int) -> Option<(int, int)> {
        if !self.has_dst() {
            None
        } else {
            Some(
                (
                    year_start_unix(year) + self.dst_start_sec(year),
                    year_start_unix(year) + self.dst_end_sec(year),
                ),
            )
        }
    }
}

// ---------------------------------------------------------------------------
// Calendar of a rule
// ---------------------------------------------------------------------------

/// Number of days in month `m` (1-12).
pub open spec fn month_len(m: int, leap: bool) -> int {
    if m == 2 {
        if leap {
            29
        } else {
            28
        }
    } else if m == 4 || m == 6 || m == 9 || m == 11 {
        30
    } else {
        31
    }
}

/// Zero-based day of year of the first day of month `m`.
pub open spec fn days_before_month(m: int, leap: bool) -> int
    decreases m,
{
    if m <= 1 {
        0
    } else {
        days_before_month(m - 1, leap) + month_len(m - 1, leap)
    }
}

/// Offset from the first of a month of the `week`-th occurrence of a weekday
/// whose first occurrence is `first` days in; `week` counts back to the last
/// occurrence that still falls inside a month of `dim` days.
pub open spec fn week_offset(first: int, week: int, dim: int) -> int
    decreases week,
{
    if week <= 1 || first + 7 * (week - 1) < dim {
        first + 7 * (week - 1)
    } else {
        week_offset(first, week - 1, dim)
    }
}

proof fn lemma_week_offset(first: int, week: int, dim: int)
    requires
        0 <= first < 7,
        1 <= week <= 5,
        28 <= dim <= 31,
    ensures
        first <= week_offset(first, week, dim) < dim,
        (week_offset(first, week, dim) - first) % 7 == 0,
        week_offset(first, week, dim) == first + 7 * (week - 1) || week_offset(first, week, dim)
            + 7 >= dim,
    decreases week,
{
    if week > 1 && first + 7 * (week - 1) >= dim {
        lemma_week_offset(first, week - 1, dim);
    } else {
        assert((7 * (week - 1)) % 7 == 0) by (nonlinear_arith);
    }
}

/// A month-week-day rule `Mm.w.d` fires inside month `m`, on weekday `d`
/// (0 = Sunday): on its `w`-th such weekday for `w` from 1 to 4, and on its
/// last one for `w = 5`.
pub proof fn law_month_week_day_in_month(r: TransitionRule, year: int)
    requires
        r.wf(),
        r.kind == RuleKind::MonthWeekDay,
    ensures
        ({
            let leap = is_leap(year);
            let first = days_before_month(r.mon as int, leap);
            let dim = month_len(r.mon as int, leap);
            let d = rule_yday(r, year);
            &&& first <= d < first + dim
            &&& weekday_of_day(days_before_year(year) + d) == r.day
            &&& r.week < 5 ==> 7 * (r.week - 1) <= d - first < 7 * r.week
            &&& r.week == 5 ==> d + 7 >= first + dim
        }),
{
    let leap = is_leap(year);
    let first = days_before_month(r.mon as int, leap);
    let dim = month_len(r.mon as int, leap);
    let dby = days_before_year(year);
    let fw = (weekday_of_day(dby) + first) % 7;
    let du = (r.day - fw + 7) % 7;
    lemma_week_offset(du, r.week as int, dim);
    let wo = week_offset(du, r.week as int, dim);
    let day = r.day as int;
    assert((dby + first + wo + 4) % 7 == day) by (nonlinear_arith)
        requires
            0 <= day <= 6,
            fw == ((dby + 4) % 7 + first) % 7,
            du == (day - fw + 7) % 7,
            (wo - du) % 7 == 0,
    ;
}

/// Zero-based day of year on which rule `r` fires in `year`.
pub open spec fn rule_yday(r: TransitionRule, year: int) -> int {
    let leap = is_leap(year);
    match r.kind {
        RuleKind::Julian => if leap && r.day - 1 >= 59 {
            r.day as int
        } else {
            r.day - 1
        },
        RuleKind::DayOfYear => r.day as int,
        RuleKind::MonthWeekDay => {
            let first_yday = days_before_month(r.mon as int, leap);
            let first_wday = (weekday_of_day(days_before_year(year)) + first_yday) % 7;
            let days_until = (r.day - first_wday + 7) % 7;
            first_yday + week_offset(days_until, r.week as int, month_len(r.mon as int, leap))
        },
    }
}

/// Seconds since the start of `year` (UTC) at which rule `r` fires, for a
/// wall clock `offset` seconds east of UTC.
pub open spec fn rule_year_sec(r: TransitionRule, year: int, offset: int) -> int {
    rule_yday(r, year) * 86400 + r.time - offset
}

// ---------------------------------------------------------------------------
// Grammar
// ---------------------------------------------------------------------------

pub open spec fn is_alpha_char(c: char) -> bool {
    (65 <= c as int && c as int <= 90) || (97 <= c as int && c as int <= 122)
}

pub open spec fn is_digit_char(c: char) -> bool {
    48 <= c as int && c as int <= 57
}

/// End of the run of ASCII letters starting at `i`.
pub open spec fn alpha_end(s: Seq<char>, i: int) -> int
    decreases s.len() - i,
{
    if 0 <= i < s.len() && is_alpha_char(s[i]) {
        alpha_end(s, i + 1)
    } else {
        i
    }
}

/// End of the run of ASCII digits starting at `i`.
pub open spec fn digit_end(s: Seq<char>, i: int) -> int
    decreases s.len() - i,
{
    if 0 <= i < s.len() && is_digit_char(s[i]) {
        digit_end(s, i + 1)
    } else {
        i
    }
}

/// Decimal value of the digits `s[i..j]`.
pub open spec fn digits_value(s: Seq<char>, i: int, j: int) -> int
    decreases j - i,
{
    if j <= i {
        0
    } else {
        digits_value(s, i, j - 1) * 10 + (s[j - 1] as int - 48)
    }
}

/// Index of the first `c` at or after `i`.
pub open spec fn find_char(s: Seq<char>, i: int, c: char) -> Option<int>
    decreases s.len() - i,
{
    if i < 0 || i >= s.len() {
        None
    } else if s[i] == c {
        Some(i)
    } else {
        find_char(s, i + 1, c)
    }
}

/// `s[i] == c`, with `i` in bounds.
pub open spec fn char_at_is(s: Seq<char>, i: int, c: char) -> bool {
    0 <= i < s.len() && s[i] == c
}

/// A zone name at `i`: `<...>` or a run of letters. Returns the name's
/// start, end, and the position after it.
pub open spec fn spec_tz_name(s: Seq<char>, i: int) -> Result<(int, int, int), &'static str> {
    if i >= s.len() {
        Ok((i, i, i))
    } else if s[i] == '<' {
        match find_char(s, i + 1, '>') {
            Some(j) => Ok((i + 1, j, j + 1)),
            None => Err("unterminated '<' in TZ name"),
        }
    } else {
        let j = alpha_end(s, i);
        Ok((i, j, j))
    }
}

/// A decimal number at `i` within `[min, max]`, and the position after it.
pub open spec fn spec_tz_num(s: Seq<char>, i: int, min: int, max: int) -> Result<
    (int, int),
    &'static str,
> {
    if i < 0 || i >= s.len() || !is_digit_char(s[i]) {
        Err("expected digit")
    } else {
        let j = digit_end(s, i);
        let n = digits_value(s, i, j);
        if n < min || n > max {
            Err("number out of range")
        } else {
            Ok((n, j))
        }
    }
}

/// An offset `[+-]hh[:mm[:ss]]` at `i` in seconds, and the position after it.
pub open spec fn spec_tz_offset(s: Seq<char>, i: int) -> Result<(int, int), &'static str> {
    if i >= s.len() {
        Err("expected offset")
    } else {
        let neg = s[i] == '-';
        let k = if s[i] == '-' || s[i] == '+' {
            i + 1
        } else {
            i
        };
        match spec_tz_num(s, k, 0, 167) {
            Err(e) => Err(e),
            Ok((h, k1)) => {
                let mag_rest: Result<(int, int), &'static str> = if char_at_is(s, k1, ':') {
                    match spec_tz_num(s, k1 + 1, 0, 59) {
                        Err(e) => Err(e),
                        Ok((m, k2)) => if char_at_is(s, k2, ':') {
                            match spec_tz_num(s, k2 + 1, 0, 59) {
                                Err(e) => Err(e),
                                Ok((sx, k3)) => Ok((h * 3600 + m * 60 + sx, k3)),
                            }
                        } else {
                            Ok((h * 3600 + m * 60, k2))
                        },
                    }
                } else {
                    Ok((h * 3600, k1))
                };
                match mag_rest {
                    Err(e) => Err(e),
                    Ok((v, k4)) => Ok(
                        (
                            if neg {
                                -v
                            } else {
                                v
                            },
                            k4,
                        ),
                    ),
                }
            },
        }
    }
}

/// A rule with the default time of day, 02:00:00.
pub open spec fn rule_of(kind: RuleKind, day: int, week: int, mon: int) -> TransitionRule {
    TransitionRule { kind, day: day as i32, week: week as i32, mon: mon as i32, time: 7200 }
}

/// The date part of a transition rule at `i`, and the position after it.
pub open spec fn spec_rule_date(s: Seq<char>, i: int) -> Result<(TransitionRule, int), &'static str> {
    if s[i] == 'M' {
        match spec_tz_num(s, i + 1, 1, 12) {
            Err(e) => Err(e),
            Ok((mon, k1)) => if !char_at_is(s, k1, '.') {
                Err("expected '.' after month in rule")
            } else {
                match spec_tz_num(s, k1 + 1, 1, 5) {
                    Err(e) => Err(e),
                    Ok((week, k2)) => if !char_at_is(s, k2, '.') {
                        Err("expected '.' after week in rule")
                    } else {
                        match spec_tz_num(s, k2 + 1, 0, 6) {
                            Err(e) => Err(e),
                            Ok((day, k3)) => Ok(
                                (rule_of(RuleKind::MonthWeekDay, day, week, mon), k3),
                            ),
                        }
                    },
                }
            },
        }
    } else if s[i] == 'J' {
        match spec_tz_num(s, i + 1, 1, 365) {
            Err(e) => Err(e),
            Ok((day, k1)) => Ok((rule_of(RuleKind::Julian, day, 0, 0), k1)),
        }
    } else {
        match spec_tz_num(s, i, 0, 365) {
            Err(e) => Err(e),
            Ok((day, k1)) => Ok((rule_of(RuleKind::DayOfYear, day, 0, 0), k1)),
        }
    }
}

/// A transition rule `date[/time]` at `i`, and the position after it.
pub open spec fn spec_tz_rule(s: Seq<char>, i: int) -> Result<(TransitionRule, int), &'static str> {
    if i >= s.len() {
        Err("empty transition rule")
    } else {
        match spec_rule_date(s, i) {
            Err(e) => Err(e),
            Ok((r, k)) => if char_at_is(s, k, '/') {
                match spec_tz_offset(s, k + 1) {
                    Err(e) => Err(e),
                    Ok((t, k2)) => Ok((TransitionRule { time: t as i32, ..r }, k2)),
                }
            } else {
                Ok((r, k))
            },
        }
    }
}

/// The rule used when a TZ string names no DST.
pub open spec fn default_rule() -> TransitionRule {
    TransitionRule { kind: RuleKind::MonthWeekDay, day: 0, week: 0, mon: 0, time: 7200 }
}

/// The US rules used when DST is named without transition rules: M3.2.0,M11.1.0.
pub open spec fn us_start_rule() -> TransitionRule {
    rule_of(RuleKind::MonthWeekDay, 0, 2, 3)
}

pub open spec fn us_end_rule() -> TransitionRule {
    rule_of(RuleKind::MonthWeekDay, 0, 1, 11)
}

/// The rules after the DST part, starting at `k` (a position holding ',' or the end).
pub open spec fn spec_tz_rules(s: Seq<char>, k: int) -> Result<(TransitionRule, TransitionRule), &'static str> {
    if k >= s.len() {
        Ok((us_start_rule(), us_end_rule()))
    } else if s[k] != ',' {
        Err("expected ',' before transition rules")
    } else {
        match spec_tz_rule(s, k + 1) {
            Err(e) => Err(e),
            Ok((start, k2)) => if !char_at_is(s, k2, ',') {
                Err("expected ',' between transition rules")
            } else {
                match spec_tz_rule(s, k2 + 1) {
                    Err(e) => Err(e),
                    Ok((end, _)) => Ok((start, end)),
                }
            },
        }
    }
}

/// The DST name, offset and rules starting at `k`, for a standard offset `std_offset`.
pub open spec fn spec_dst_part(s: Seq<char>, k: int, std_abbrev: Seq<char>, std_offset: int) -> Result<
    PosixTzModel,
    &'static str,
> {
    match spec_tz_name(s, k) {
        Err(e) => Err(e),
        Ok((a, b, k1)) => if a == b {
            Err("empty DST timezone name")
        } else {
            let dst: Result<(int, int), &'static str> = if k1 < s.len() && s[k1] != ',' {
                match spec_tz_offset(s, k1) {
                    Err(e) => Err(e),
                    Ok((o, k2)) => Ok((-o, k2)),
                }
            } else {
                Ok((std_offset + 3600, k1))
            };
            match dst {
                Err(e) => Err(e),
                Ok((dst_offset, k2)) => match spec_tz_rules(s, k2) {
                    Err(e) => Err(e),
                    Ok((start, end)) => Ok(
                        PosixTzModel {
                            std_abbrev,
                            std_offset,
                            dst_abbrev: s.subrange(a, b),
                            dst_offset,
                            start,
                            end,
                        },
                    ),
                },
            }
        },
    }
}

/// What `parse_posix_tz` yields for the characters `s`.
pub open spec fn spec_parse_posix_tz(s: Seq<char>) -> Result<PosixTzModel, &'static str> {
    match spec_tz_name(s, 0) {
        Err(e) => Err(e),
        Ok((a, b, k)) => if a == b {
            Err("empty standard timezone name")
        } else {
            match spec_tz_offset(s, k) {
                Err(e) => Err(e),
                Ok((off, k1)) => {
                    let std_abbrev = s.subrange(a, b);
                    if k1 >= s.len() {
                        Ok(
                            PosixTzModel {
                                std_abbrev,
                                std_offset: -off,
                                dst_abbrev: Seq::empty(),
                                dst_offset: 0,
                                start: default_rule(),
                                end: default_rule(),
                            },
                        )
                    } else {
                        spec_dst_part(s, k1, std_abbrev, -off)
                    }
                },
            }
        },
    }
}

// ---------------------------------------------------------------------------
// Parsing
// ---------------------------------------------------------------------------

fn is_alpha(c: char) -> (r: bool)
    ensures
        r == is_alpha_char(c),
{
    let v = c as u32;
    (65 <= v && v <= 90) || (97 <= v && v <= 122)
}

fn is_digit(c: char) -> (r: bool)
    ensures
        r == is_digit_char(c),
{
    let v = c as u32;
    48 <= v && v <= 57
}

fn parse_tz_name(s: &Vec<char>, i: usize) -> (r: Result<(usize, usize, usize), &'static str>)
    requires
        i <= s.len(),
    ensures
        match r {
            Ok(t) => spec_tz_name(s@, i as int) == Ok::<(int, int, int), &'static str>(
                (t.0 as int, t.1 as int, t.2 as int),
            ) && t.0 <= t.1 <= t.2 <= s.len(),
            Err(m) => spec_tz_name(s@, i as int) == Err::<(int, int, int), &'static str>(m),
        },
{
    if i >= s.len() {
        return Ok((i, i, i));
    }
    if s[i] == '<' {
        let mut j = i + 1;
        while j < s.len() && s[j] != '>'
            invariant
                i + 1 <= j <= s.len(),
                find_char(s@, (i + 1) as int, '>') == find_char(s@, j as int, '>'),
            decreases s.len() - j,
        {
            j = j + 1;
        }
        if j == s.len() {
            return Err("unterminated '<' in TZ name");
        }
        return Ok((i + 1, j, j + 1));
    }
    let mut j = i;
    while j < s.len() && is_alpha(s[j])
        invariant
            i <= j <= s.len(),
            alpha_end(s@, i as int) == alpha_end(s@, j as int),
        decreases s.len() - j,
    {
        j = j + 1;
    }
    Ok((i, j, j))
}

fn parse_tz_num(s: &Vec<char>, i: usize, min: i32, max: i32) -> (r: Result<(i32, usize), &'static str>)
    requires
        i <= s.len(),
        0 <= min <= max <= 1000,
    ensures
        match r {
            Ok(t) => spec_tz_num(s@, i as int, min as int, max as int) == Ok::<(int, int), &'static str>(
                (t.0 as int, t.1 as int),
            ) && t.1 <= s.len(),
            Err(m) => spec_tz_num(s@, i as int, min as int, max as int) == Err::<(int, int), &'static str>(m),
        },
{
    if i >= s.len() || !is_digit(s[i]) {
        return Err("expected digit");
    }
    let mut n: i32 = 0;
    let mut over = false;
    let mut k = i;
    while k < s.len() && is_digit(s[k])
        invariant
            i <= k <= s.len(),
            0 <= min <= max <= 1000,
            digit_end(s@, i as int) == digit_end(s@, k as int),
            digits_value(s@, i as int, k as int) >= 0,
            !over ==> n == digits_value(s@, i as int, k as int) && n <= max,
            over ==> digits_value(s@, i as int, k as int) > max,
        decreases s.len() - k,
    {
        let d = (s[k] as u32 - 48) as i32;
        if !over {
            let v = n * 10 + d;
            if v > max {
                over = true;
            } else {
                n = v;
            }
        }
        k = k + 1;
    }
    if over || n < min {
        return Err("number out of range");
    }
    Ok((n, k))
}

fn parse_tz_offset(s: &Vec<char>, i: usize) -> (r: Result<(i32, usize), &'static str>)
    requires
        i <= s.len(),
    ensures
        match r {
            Ok(t) => spec_tz_offset(s@, i as int) == Ok::<(int, int), &'static str>(
                (t.0 as int, t.1 as int),
            ) && t.1 <= s.len() && -max_offset() <= t.0 <= max_offset(),
            Err(m) => spec_tz_offset(s@, i as int) == Err::<(int, int), &'static str>(m),
        },
{
    if i >= s.len() {
        return Err("expected offset");
    }
    let neg = s[i] == '-';
    let k = if s[i] == '-' || s[i] == '+' {
        i + 1
    } else {
        i
    };
    let (hours, k1) = parse_tz_num(s, k, 0, 167)?;
    let mut mins: i32 = 0;
    let mut secs: i32 = 0;
    let mut rest = k1;
    if k1 < s.len() && s[k1] == ':' {
        let (m, k2) = parse_tz_num(s, k1 + 1, 0, 59)?;
        mins = m;
        rest = k2;
        if k2 < s.len() && s[k2] == ':' {
            let (sx, k3) = parse_tz_num(s, k2 + 1, 0, 59)?;
            secs = sx;
            rest = k3;
        }
    }
    let mut offset = hours * 3600 + mins * 60 + secs;
    if neg {
        offset = -offset;
    }
    Ok((offset, rest))
}

fn parse_tz_rule(s: &Vec<char>, i: usize) -> (r: Result<(TransitionRule, usize), &'static str>)
    requires
        i <= s.len(),
    ensures
        match r {
            Ok(t) => spec_tz_rule(s@, i as int) == Ok::<(TransitionRule, int), &'static str>(
                (t.0, t.1 as int),
            ) && t.1 <= s.len() && t.0.wf(),
            Err(m) => spec_tz_rule(s@, i as int) == Err::<(TransitionRule, int), &'static str>(m),
        },
{
    if i >= s.len() {
        return Err("empty transition rule");
    }
    let mut r = TransitionRule { kind: RuleKind::DayOfYear, day: 0, week: 0, mon: 0, time: 7200 };
    let mut rest: usize;
    if s[i] == 'M' {
        r.kind = RuleKind::MonthWeekDay;
        let (mon, k1) = parse_tz_num(s, i + 1, 1, 12)?;
        r.mon = mon;
        if !(k1 < s.len() && s[k1] == '.') {
            return Err("expected '.' after month in rule");
        }
        let (week, k2) = parse_tz_num(s, k1 + 1, 1, 5)?;
        r.week = week;
        if !(k2 < s.len() && s[k2] == '.') {
            return Err("expected '.' after week in rule");
        }
        let (day, k3) = parse_tz_num(s, k2 + 1, 0, 6)?;
        r.day = day;
        rest = k3;
    } else if s[i] == 'J' {
        r.kind = RuleKind::Julian;
        let (day, k1) = parse_tz_num(s, i + 1, 1, 365)?;
        r.day = day;
        rest = k1;
    } else {
        r.kind = RuleKind::DayOfYear;
        let (day, k1) = parse_tz_num(s, i, 0, 365)?;
        r.day = day;
        rest = k1;
    }
    assert(spec_rule_date(s@, i as int) == Ok::<(TransitionRule, int), &'static str>(
        (r, rest as int),
    ));
    if rest < s.len() && s[rest] == '/' {
        let (off, k) = parse_tz_offset(s, rest + 1)?;
        r.time = off;
        rest = k;
    }
    Ok((r, rest))
}

/// Parses a POSIX-style `TZ` string.
pub fn parse_posix_tz(s: &str) -> (r: Result<PosixTz<'_>, Error>)
    ensures
        match r {
            Ok(p) => spec_parse_posix_tz(s@) == Ok::<PosixTzModel, &'static str>(p@) && p@.wf(),
            Err(e) => exists|m: &'static str|
                spec_parse_posix_tz(s@) == Err::<PosixTzModel, &'static str>(m) && e
                    == Error::BadPosixTz(m),
        },
{
    let cs = chars_vec(s);
    let (a, b, k) = match parse_tz_name(&cs, 0) {
        Ok(t) => t,
        Err(m) => return Err(Error::BadPosixTz(m)),
    };
    if a == b {
        return Err(Error::BadPosixTz("empty standard timezone name"));
    }
    let (off, k1) = match parse_tz_offset(&cs, k) {
        Ok(t) => t,
        Err(m) => return Err(Error::BadPosixTz(m)),
    };
    let std_abbrev = s.substring_char(a, b);
    let std_offset = -off;
    proof {
        reveal_strlit("");
    }
    let mut p = PosixTz {
        std_abbrev,
        std_offset,
        dst_abbrev: "",
        dst_offset: 0,
        start: TransitionRule { kind: RuleKind::MonthWeekDay, day: 0, week: 0, mon: 0, time: 7200 },
        end: TransitionRule { kind: RuleKind::MonthWeekDay, day: 0, week: 0, mon: 0, time: 7200 },
    };
    assert(p.dst_abbrev@ =~= Seq::<char>::empty());
    if k1 >= cs.len() {
        return Ok(p);
    }
    // DST name.
    let (c, d, k2) = match parse_tz_name(&cs, k1) {
        Ok(t) => t,
        Err(m) => return Err(Error::BadPosixTz(m)),
    };
    if c == d {
        return Err(Error::BadPosixTz("empty DST timezone name"));
    }
    p.dst_abbrev = s.substring_char(c, d);
    // Optional DST offset (default: std offset + 1 hour).
    let k3 = if k2 < cs.len() && cs[k2] != ',' {
        let (o, k3) = match parse_tz_offset(&cs, k2) {
            Ok(t) => t,
            Err(m) => return Err(Error::BadPosixTz(m)),
        };
        p.dst_offset = -o;
        k3
    } else {
        p.dst_offset = p.std_offset + 3600;
        k2
    };
    // Transition rules.
    if k3 >= cs.len() {
        // Default US rules: M3.2.0,M11.1.0
        p.start = TransitionRule { kind: RuleKind::MonthWeekDay, mon: 3, week: 2, day: 0, time: 7200 };
        p.end = TransitionRule { kind: RuleKind::MonthWeekDay, mon: 11, week: 1, day: 0, time: 7200 };
        return Ok(p);
    }
    if cs[k3] != ',' {
        return Err(Error::BadPosixTz("expected ',' before transition rules"));
    }
    let (start, k4) = match parse_tz_rule(&cs, k3 + 1) {
        Ok(t) => t,
        Err(m) => return Err(Error::BadPosixTz(m)),
    };
    p.start = start;
    if !(k4 < cs.len() && cs[k4] == ',') {
        return Err(Error::BadPosixTz("expected ',' between transition rules"));
    }
    let (end, _k5) = match parse_tz_rule(&cs, k4 + 1) {
        Ok(t) => t,
        Err(m) => return Err(Error::BadPosixTz(m)),
    };
    p.end = end;
    Ok(p)
}


// ---------------------------------------------------------------------------
// Evaluation
// ---------------------------------------------------------------------------

/// Number of days in month `m` (1-12) of a leap or common year.
fn month_days(m: i32, leap: bool) -> (r: i32)
    ensures
        r == month_len(m as int, leap),
{
    if m == 2 {
        if leap {
            29
        } else {
            28
        }
    } else if m == 4 || m == 6 || m == 9 || m == 11 {
        30
    } else {
        31
    }
}

/// Converts a [`TransitionRule`] to seconds since the start of the year in UTC
/// (wall-clock seconds adjusted by `offset`).
fn rule_to_year_sec(r: TransitionRule, year: i32, offset: i32) -> (res: i32)
    requires
        r.wf(),
        -max_offset() <= offset <= max_offset() + 3600,
    ensures
        res == rule_year_sec(r, year as int, offset as int),
{
    let leap = is_leap_year(year);
    let yday: i32 = match r.kind {
        RuleKind::Julian => {
            // Jn: 1-365, Feb 29 is never counted.
            let mut d = r.day - 1;
            if leap && d >= 59 {
                d = d + 1;
            }
            d
        },
        RuleKind::DayOfYear => r.day,
        RuleKind::MonthWeekDay => {
            let m = r.mon;
            // Day of year of the 1st of the month.
            let mut first_yday: i32 = 0;
            let mut i: i32 = 1;
            while i < m
                invariant
                    1 <= i <= m <= 12,
                    first_yday == days_before_month(i as int, leap),
                    0 <= first_yday <= 31 * (i - 1),
                decreases m - i,
            {
                first_yday = first_yday + month_days(i, leap);
                i = i + 1;
            }
            // Day of week of the 1st of the month.
            let jan1_wday = jan1_weekday(year);
            let first_wday = (jan1_wday + first_yday) % 7;
            // Days until the target day-of-week from the 1st.
            let days_until = (r.day - first_wday + 7) % 7;
            // Advance to the target week, stepping back while past the month's end.
            let month_len_days = month_days(m, leap);
            let mut w = r.week;
            while w > 1 && days_until + 7 * (w - 1) >= month_len_days
                invariant
                    1 <= w <= r.week <= 5,
                    0 <= days_until < 7,
                    week_offset(days_until as int, r.week as int, month_len_days as int)
                        == week_offset(days_until as int, w as int, month_len_days as int),
                decreases w,
            {
                w = w - 1;
            }
            first_yday + days_until + 7 * (w - 1)
        },
    };
    yday * 86400 + r.time - offset
}

impl<'a> PosixTz<'a> {
    /// Reports whether the rule defines daylight saving time.
    pub fn has_dst(&self) -> (r: bool)
        ensures
            r == self@.has_dst(),
    {
        !self.dst_abbrev.is_empty()
    }

    /// Returns the abbreviation, UTC offset, and DST flag in effect at the given
    /// Unix timestamp according to this rule.
    pub fn lookup(&self, unix: i64) -> (r: (&'a str, i32, bool))
        requires
            self@.has_dst() ==> self@.wf() && unix_in_domain(unix as int),
        ensures
            r == (if self@.in_dst(unix as int) {
                (self.dst_abbrev, self.dst_offset, true)
            } else {
                (self.std_abbrev, self.std_offset, false)
            }),
    {
        if !self.has_dst() {
            return (self.std_abbrev, self.std_offset, false);
        }
        let (year, yday, sec) = unix_to_yday_sec(unix);
        let year_sec = yday * 86400 + sec;
        let start_sec = rule_to_year_sec(self.start, year, self.std_offset);
        let end_sec = rule_to_year_sec(self.end, year, self.dst_offset);
        let in_dst = if start_sec < end_sec {
            // Northern hemisphere: DST between start and end.
            year_sec >= start_sec && year_sec < end_sec
        } else {
            // Southern hemisphere: DST outside [end, start).
            year_sec >= start_sec || year_sec < end_sec
        };
        if in_dst {
            (self.dst_abbrev, self.dst_offset, true)
        } else {
            (self.std_abbrev, self.std_offset, false)
        }
    }

    /// Returns the DST start and end times as Unix timestamps for `year`,
    /// or `None` if the rule defines no DST.
    pub fn transitions_for_year(&self, year: i32) -> (r: Option<(i64, i64)>)
        requires
            self@.has_dst() ==> self@.wf(),
        ensures
            match r {
                None => self@.transitions_of_year(year as int) is None,
                Some(t) => self@.transitions_of_year(year as int) == Some(
                    (t.0 as int, t.1 as int),
                ),
            },
    {
        if !self.has_dst() {
            return None;
        }
        let year_start = year_to_unix(year);
        let start_sec = rule_to_year_sec(self.start, year, self.std_offset);
        let end_sec = rule_to_year_sec(self.end, year, self.dst_offset);
        Some((year_start + start_sec as i64, year_start + end_sec as i64))
    }
}

/// DST status at an instant, as reported by [`PosixTz::lookup`], agrees with
/// the DST start and end that [`PosixTz::transitions_for_year`] reports for
/// the instant's year: inside `[start, end)` when DST starts before it ends,
/// outside `[end, start)` otherwise.
pub proof fn law_lookup_agrees_with_year_transitions(p: PosixTzModel, unix: int)
    requires
        p.wf(),
        p.has_dst(),
        unix_in_domain(unix),
    ensures
        p.transitions_of_year(year_of_unix(unix)) matches Some((s, e)) && (p.in_dst(unix) <==> (
        if s < e {
            s <= unix < e
        } else {
            unix >= s || unix < e
        })),
{
}

// ---------------------------------------------------------------------------
// Formatting
// ---------------------------------------------------------------------------

/// The character of decimal digit `d`.
pub open spec fn digit_char(d: int) -> char {
    (d + 48) as char
}

/// Decimal digits of `n`, most significant first, without leading zeros.
pub open spec fn dec_digits(n: nat) -> Seq<char>
    decreases n,
{
    if n < 10 {
        seq![digit_char(n as int)]
    } else {
        dec_digits(n / 10).push(digit_char((n % 10) as int))
    }
}

/// An integer as `{}` prints it.
pub open spec fn fmt_int(v: int) -> Seq<char> {
    if v < 0 {
        seq!['-'] + dec_digits((-v) as nat)
    } else {
        dec_digits(v as nat)
    }
}

/// A number below 100 as `{:02}` prints it.
pub open spec fn two_digits(n: int) -> Seq<char> {
    seq![digit_char(n / 10), digit_char(n % 10)]
}

/// An offset in seconds as `[-]h[:mm[:ss]]`.
pub open spec fn fmt_offset(v: int) -> Seq<char> {
    let a = if v < 0 {
        -v
    } else {
        v
    };
    let hours = a / 3600;
    let mins = (a % 3600) / 60;
    let secs = a % 60;
    (if v < 0 {
        seq!['-']
    } else {
        Seq::<char>::empty()
    }) + dec_digits(hours as nat) + (if mins != 0 || secs != 0 {
        seq![':'] + two_digits(mins) + (if secs != 0 {
            seq![':'] + two_digits(secs)
        } else {
            Seq::<char>::empty()
        })
    } else {
        Seq::<char>::empty()
    })
}

/// A zone name, quoted in `<...>` when it holds anything but ASCII letters.
pub open spec fn fmt_name(name: Seq<char>) -> Seq<char> {
    if exists|i: int| 0 <= i < name.len() && !is_alpha_char(#[trigger] name[i]) {
        seq!['<'] + name + seq!['>']
    } else {
        name
    }
}

/// A transition rule as `Jn`, `n` or `Mm.w.d`, with `/time` unless 02:00:00.
pub open spec fn fmt_rule(r: TransitionRule) -> Seq<char> {
    (match r.kind {
        RuleKind::Julian => seq!['J'] + fmt_int(r.day as int),
        RuleKind::DayOfYear => fmt_int(r.day as int),
        RuleKind::MonthWeekDay => seq!['M'] + fmt_int(r.mon as int) + seq!['.'] + fmt_int(
            r.week as int,
        ) + seq!['.'] + fmt_int(r.day as int),
    }) + (if r.time != 7200 {
        seq!['/'] + fmt_offset(r.time as int)
    } else {
        Seq::<char>::empty()
    })
}

/// The POSIX TZ string of a rule; the DST offset is left out when it is one
/// hour ahead of standard time, the default.
pub open spec fn fmt_posix_tz(p: PosixTzModel) -> Seq<char> {
    fmt_name(p.std_abbrev) + fmt_offset(-p.std_offset) + (if !p.has_dst() {
        Seq::<char>::empty()
    } else {
        fmt_name(p.dst_abbrev) + (if p.dst_offset != p.std_offset + 3600 {
            fmt_offset(-p.dst_offset)
        } else {
            Seq::<char>::empty()
        }) + seq![','] + fmt_rule(p.start) + seq![','] + fmt_rule(p.end)
    })
}

/// Appends `c` to `s` (std's `String::push`).
#[verifier::external_body]
fn push_char(s: &mut String, c: char)
    ensures
        final(s)@ == old(s)@.push(c),
{
    s.push(c);
}

fn push_digit(s: &mut String, d: u64)
    requires
        d < 10,
    ensures
        final(s)@ == old(s)@.push(digit_char(d as int)),
{
    let c = (d as u8 + 48) as char;
    push_char(s, c);
}

pub(crate) fn push_dec(s: &mut String, n: u64)
    ensures
        final(s)@ == old(s)@ + dec_digits(n as nat),
    decreases n,
{
    if n < 10 {
        push_digit(s, n);
        assert(old(s)@.push(digit_char(n as int)) =~= old(s)@ + dec_digits(n as nat));
    } else {
        push_dec(s, n / 10);
        push_digit(s, n % 10);
        assert(dec_digits(n as nat) =~= dec_digits((n / 10) as nat).push(digit_char((n % 10) as int)));
    }
}

pub(crate) fn push_int(s: &mut String, v: i32)
    ensures
        final(s)@ == old(s)@ + fmt_int(v as int),
{
    if v < 0 {
        push_char(s, '-');
        push_dec(s, (-(v as i64)) as u64);
    } else {
        push_dec(s, v as u64);
    }
}

fn push_two_digits(s: &mut String, n: i32)
    requires
        0 <= n < 100,
    ensures
        final(s)@ == old(s)@ + two_digits(n as int),
{
    push_digit(s, (n / 10) as u64);
    push_digit(s, (n % 10) as u64);
}

fn write_name(s: &mut String, name: &str)
    ensures
        final(s)@ == old(s)@ + fmt_name(name@),
{
    let cs = chars_vec(name);
    let mut needs_quote = false;
    let mut i: usize = 0;
    while i < cs.len()
        invariant
            i <= cs.len(),
            cs@ == name@,
            needs_quote <==> exists|j: int| 0 <= j < i && !is_alpha_char(#[trigger] cs@[j]),
        decreases cs.len() - i,
    {
        if !is_alpha(cs[i]) {
            needs_quote = true;
        }
        i = i + 1;
    }
    if needs_quote {
        push_char(s, '<');
        s.append(name);
        push_char(s, '>');
    } else {
        s.append(name);
    }
}

fn write_offset(s: &mut String, posix_off: i32)
    requires
        posix_off != i32::MIN,
    ensures
        final(s)@ == old(s)@ + fmt_offset(posix_off as int),
{
    let mut v = posix_off;
    if v < 0 {
        push_char(s, '-');
        v = -v;
    }
    let hours = v / 3600;
    let mins = (v % 3600) / 60;
    let secs = v % 60;
    push_dec(s, hours as u64);
    if mins != 0 || secs != 0 {
        push_char(s, ':');
        push_two_digits(s, mins);
        if secs != 0 {
            push_char(s, ':');
            push_two_digits(s, secs);
        }
    }
}

fn write_rule(s: &mut String, r: TransitionRule)
    requires
        r.time != i32::MIN,
    ensures
        final(s)@ == old(s)@ + fmt_rule(r),
{
    match r.kind {
        RuleKind::Julian => {
            push_char(s, 'J');
            push_int(s, r.day);
        },
        RuleKind::DayOfYear => push_int(s, r.day),
        RuleKind::MonthWeekDay => {
            push_char(s, 'M');
            push_int(s, r.mon);
            push_char(s, '.');
            push_int(s, r.week);
            push_char(s, '.');
            push_int(s, r.day);
        },
    }
    if r.time != 7200 {
        push_char(s, '/');
        write_offset(s, r.time);
    }
}

impl<'a> PosixTz<'a> {
    /// The offsets and times can be negated without overflow, as formatting requires.
    pub open spec fn formattable(&self) -> bool {
        &&& self.std_offset != i32::MIN
        &&& self@.has_dst() ==> {
            &&& self.std_offset + 3600 <= i32::MAX
            &&& self.dst_offset != i32::MIN
            &&& self.start.time != i32::MIN
            &&& self.end.time != i32::MIN
        }
    }

    /// Formats the rule as a POSIX TZ string.
    #[verifier::rlimit(40)]
    pub fn to_string(&self) -> (r: String)
        requires
            self.formattable(),
        ensures
            r@ == fmt_posix_tz(self@),
    {
        let mut out = String::new();
        write_name(&mut out, self.std_abbrev);
        write_offset(&mut out, -self.std_offset);
        if !self.has_dst() {
            assert(out@ =~= fmt_posix_tz(self@));
            return out;
        }
        write_name(&mut out, self.dst_abbrev);
        if self.dst_offset != self.std_offset + 3600 {
            write_offset(&mut out, -self.dst_offset);
        }
        push_char(&mut out, ',');
        write_rule(&mut out, self.start);
        push_char(&mut out, ',');
        write_rule(&mut out, self.end);
        assert(out@ =~= fmt_posix_tz(self@));
        out
    }
}

} // verus!

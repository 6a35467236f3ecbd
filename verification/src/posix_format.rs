//! Formatting a parsed POSIX TZ rule and parsing the text again gives back
//! the same rule.

use vstd::prelude::*;

use crate::posix::{
    alpha_end, char_at_is, dec_digits, default_rule, digit_char, digit_end, digits_value,
    find_char, fmt_int, fmt_name, fmt_offset, fmt_posix_tz, fmt_rule, is_alpha_char, is_digit_char,
    max_offset, rule_of, spec_dst_part, spec_parse_posix_tz, spec_rule_date, spec_tz_name,
    spec_tz_num, spec_tz_offset, spec_tz_rule, spec_tz_rules, two_digits, PosixTzModel, RuleKind,
    TransitionRule,
};

verus! {

/// Every character of `s` is an ASCII digit.
pub open spec fn all_digits(s: Seq<char>) -> bool {
    forall|i: int| 0 <= i < s.len() ==> is_digit_char(#[trigger] s[i])
}

/// `s` holds no `>`.
pub open spec fn no_close(s: Seq<char>) -> bool {
    forall|i: int| 0 <= i < s.len() ==> #[trigger] s[i] != '>'
}

/// A name as the parser returns it: non-empty and without `>`.
pub open spec fn parsed_name(s: Seq<char>) -> bool {
    s.len() > 0 && no_close(s)
}

/// A rule as the parser returns it: well formed, with unused fields zero.
pub open spec fn parsed_rule(r: TransitionRule) -> bool {
    &&& r.wf()
    &&& r.kind != RuleKind::MonthWeekDay ==> r.week == 0 && r.mon == 0
}

/// `t` holds `p` at position `i`.
pub open spec fn holds_at(t: Seq<char>, i: int, p: Seq<char>) -> bool {
    0 <= i && i + p.len() <= t.len() && t.subrange(i, i + p.len()) == p
}

/// The character after position `j` of `t`, when there is one, satisfies `ok`.
pub open spec fn ends_or(t: Seq<char>, j: int, ok: spec_fn(char) -> bool) -> bool {
    j == t.len() || (0 <= j < t.len() && ok(t[j]))
}

proof fn lemma_holds_index(t: Seq<char>, i: int, p: Seq<char>, k: int)
    requires
        holds_at(t, i, p),
        0 <= k < p.len(),
    ensures
        t[i + k] == p[k],
{
    assert(t.subrange(i, i + p.len())[k] == t[i + k]);
}

proof fn lemma_holds_split(t: Seq<char>, i: int, a: Seq<char>, b: Seq<char>)
    requires
        holds_at(t, i, a + b),
    ensures
        holds_at(t, i, a),
        holds_at(t, i + a.len(), b),
{
    assert(t.subrange(i, i + a.len()) =~= (a + b).subrange(0, a.len() as int));
    assert((a + b).subrange(0, a.len() as int) =~= a);
    assert(t.subrange(i + a.len(), i + a.len() + b.len()) =~= (a + b).subrange(
        a.len() as int,
        (a + b).len() as int,
    ));
    assert((a + b).subrange(a.len() as int, (a + b).len() as int) =~= b);
}

// ---------------------------------------------------------------------------
// Numbers
// ---------------------------------------------------------------------------

proof fn lemma_digits_value_agree(a: Seq<char>, b: Seq<char>, i: int, j: int)
    requires
        forall|k: int| i <= k < j ==> a[k] == b[k],
    ensures
        digits_value(a, i, j) == digits_value(b, i, j),
    decreases j - i,
{
    if j > i {
        lemma_digits_value_agree(a, b, i, j - 1);
    }
}

proof fn lemma_digits_value_shift(t: Seq<char>, i: int, d: Seq<char>, k: int)
    requires
        holds_at(t, i, d),
        0 <= k <= d.len(),
    ensures
        digits_value(t, i, i + k) == digits_value(d, 0, k),
    decreases k,
{
    if k > 0 {
        lemma_digits_value_shift(t, i, d, k - 1);
        lemma_holds_index(t, i, d, k - 1);
    }
}

proof fn lemma_digit_end(t: Seq<char>, i: int, j: int)
    requires
        0 <= i <= j <= t.len(),
        forall|k: int| i <= k < j ==> is_digit_char(#[trigger] t[k]),
        j == t.len() || !is_digit_char(t[j]),
    ensures
        digit_end(t, i) == j,
    decreases j - i,
{
    if i < j {
        lemma_digit_end(t, i + 1, j);
    }
}

/// The decimal digits of `n` are digits and spell `n`.
pub proof fn lemma_dec_digits(n: nat)
    ensures
        dec_digits(n).len() >= 1,
        all_digits(dec_digits(n)),
        digits_value(dec_digits(n), 0, dec_digits(n).len() as int) == n,
    decreases n,
{
    let d = dec_digits(n);
    if n < 10 {
        assert(digits_value(d, 0, 0) == 0);
    } else {
        let p = dec_digits(n / 10);
        lemma_dec_digits(n / 10);
        assert(d == p.push(digit_char((n % 10) as int)));
        lemma_digits_value_agree(d, p, 0, p.len() as int);
        assert(digits_value(d, 0, d.len() as int) == digits_value(d, 0, p.len() as int) * 10 + (
        n % 10));
    }
}

proof fn lemma_num_at(t: Seq<char>, i: int, d: Seq<char>, n: int, min: int, max: int)
    requires
        holds_at(t, i, d),
        d.len() >= 1,
        all_digits(d),
        digits_value(d, 0, d.len() as int) == n,
        min <= n <= max,
        i + d.len() == t.len() || !is_digit_char(t[i + d.len()]),
    ensures
        spec_tz_num(t, i, min, max) == Ok::<(int, int), &'static str>((n, i + d.len())),
{
    assert forall|k: int| i <= k < i + d.len() implies is_digit_char(#[trigger] t[k]) by {
        lemma_holds_index(t, i, d, k - i);
    }
    lemma_holds_index(t, i, d, 0);
    lemma_digit_end(t, i, i + d.len());
    lemma_digits_value_shift(t, i, d, d.len() as int);
}

proof fn lemma_dec_at(t: Seq<char>, i: int, n: nat, min: int, max: int)
    requires
        holds_at(t, i, dec_digits(n)),
        min <= n <= max,
        i + dec_digits(n).len() == t.len() || !is_digit_char(t[i + dec_digits(n).len()]),
    ensures
        spec_tz_num(t, i, min, max) == Ok::<(int, int), &'static str>(
            (n as int, i + dec_digits(n).len()),
        ),
{
    lemma_dec_digits(n);
    lemma_num_at(t, i, dec_digits(n), n as int, min, max);
}

proof fn lemma_two_at(t: Seq<char>, i: int, n: int)
    requires
        holds_at(t, i, two_digits(n)),
        0 <= n <= 59,
        i + 2 == t.len() || !is_digit_char(t[i + 2]),
    ensures
        spec_tz_num(t, i, 0, 59) == Ok::<(int, int), &'static str>((n, i + 2)),
{
    let d = two_digits(n);
    assert(digits_value(d, 0, 0) == 0);
    assert(d[0] as int - 48 == n / 10);
    assert(digits_value(d, 0, 1) == n / 10);
    assert(digits_value(d, 0, 2) == n);
    lemma_num_at(t, i, d, n, 0, 59);
}

// ---------------------------------------------------------------------------
// Offsets
// ---------------------------------------------------------------------------

/// What may follow an offset: neither a digit nor `:`.
pub open spec fn after_offset(c: char) -> bool {
    !is_digit_char(c) && c != ':'
}

proof fn lemma_offset_at(t: Seq<char>, i: int, v: int)
    requires
        -max_offset() <= v <= max_offset(),
        holds_at(t, i, fmt_offset(v)),
        ends_or(t, i + fmt_offset(v).len(), |c: char| after_offset(c)),
    ensures
        spec_tz_offset(t, i) == Ok::<(int, int), &'static str>((v, i + fmt_offset(v).len())),
{
    let a = if v < 0 {
        -v
    } else {
        v
    };
    let h = a / 3600;
    let m = (a % 3600) / 60;
    let s = a % 60;
    let sign = if v < 0 {
        seq!['-']
    } else {
        Seq::<char>::empty()
    };
    let hd = dec_digits(h as nat);
    let tail3 = if s != 0 {
        seq![':'] + two_digits(s)
    } else {
        Seq::<char>::empty()
    };
    let tail = if m != 0 || s != 0 {
        seq![':'] + two_digits(m) + tail3
    } else {
        Seq::<char>::empty()
    };
    let f = fmt_offset(v);
    assert(f == sign + hd + tail);
    lemma_dec_digits(h as nat);
    lemma_holds_split(t, i, sign + hd, tail);
    lemma_holds_split(t, i, sign, hd);
    let k = i + sign.len();
    let k1 = k + hd.len();
    assert(h <= 167);
    assert(a == h * 3600 + m * 60 + s);
    lemma_holds_index(t, i, f, 0);
    if v < 0 {
        assert(t[i] == '-');
    } else {
        lemma_holds_index(t, k, hd, 0);
        assert(is_digit_char(t[i]));
    }
    if m != 0 || s != 0 {
        lemma_holds_split(t, k1, seq![':'] + two_digits(m), tail3);
        lemma_holds_split(t, k1, seq![':'], two_digits(m));
        lemma_holds_index(t, k1, seq![':'], 0);
        lemma_dec_at(t, k, h as nat, 0, 167);
        let k2 = k1 + 1;
        if s != 0 {
            lemma_holds_split(t, k2 + 2, seq![':'], two_digits(s));
            lemma_holds_index(t, k2 + 2, seq![':'], 0);
            lemma_two_at(t, k2, m);
            lemma_two_at(t, k2 + 3, s);
        } else {
            assert(tail3.len() == 0);
            lemma_two_at(t, k2, m);
        }
    } else {
        assert(tail.len() == 0);
        lemma_dec_at(t, k, h as nat, 0, 167);
    }
}

/// A parsed offset lies within 167:59:59 of zero.
proof fn lemma_offset_bound(t: Seq<char>, i: int)
    requires
        spec_tz_offset(t, i) is Ok,
    ensures
        spec_tz_offset(t, i) matches Ok((v, k)) && -max_offset() <= v <= max_offset() && i < k
            <= t.len(),
{
    let k0 = if t[i] == '-' || t[i] == '+' {
        i + 1
    } else {
        i
    };
    lemma_num_end(t, k0, 0, 167);
    if let Ok((h, k1)) = spec_tz_num(t, k0, 0, 167) {
        if char_at_is(t, k1, ':') {
            lemma_num_end(t, k1 + 1, 0, 59);
            if let Ok((m, k2)) = spec_tz_num(t, k1 + 1, 0, 59) {
                if char_at_is(t, k2, ':') {
                    lemma_num_end(t, k2 + 1, 0, 59);
                }
            }
        }
    }
}

proof fn lemma_digit_end_bound(t: Seq<char>, i: int)
    requires
        0 <= i <= t.len(),
    ensures
        i <= digit_end(t, i) <= t.len(),
    decreases t.len() - i,
{
    if i < t.len() && is_digit_char(t[i]) {
        lemma_digit_end_bound(t, i + 1);
    }
}

/// A parsed number ends after its start, within the text.
proof fn lemma_num_end(t: Seq<char>, i: int, min: int, max: int)
    ensures
        spec_tz_num(t, i, min, max) matches Ok((n, k)) ==> i < k <= t.len() && min <= n <= max,
{
    if 0 <= i < t.len() && is_digit_char(t[i]) {
        lemma_digit_end_bound(t, i + 1);
    }
}

// ---------------------------------------------------------------------------
// Names
// ---------------------------------------------------------------------------

proof fn lemma_alpha_end(t: Seq<char>, i: int, j: int)
    requires
        0 <= i <= j <= t.len(),
        forall|k: int| i <= k < j ==> is_alpha_char(#[trigger] t[k]),
        j == t.len() || !is_alpha_char(t[j]),
    ensures
        alpha_end(t, i) == j,
    decreases j - i,
{
    if i < j {
        lemma_alpha_end(t, i + 1, j);
    }
}

proof fn lemma_find_char(t: Seq<char>, i: int, j: int, c: char)
    requires
        0 <= i <= j < t.len(),
        forall|k: int| i <= k < j ==> #[trigger] t[k] != c,
        t[j] == c,
    ensures
        find_char(t, i, c) == Some(j),
    decreases j - i,
{
    if i < j {
        lemma_find_char(t, i + 1, j, c);
    }
}

proof fn lemma_find_char_between(t: Seq<char>, i: int, c: char)
    requires
        0 <= i,
    ensures
        find_char(t, i, c) matches Some(j) ==> i <= j < t.len() && t[j] == c && forall|k: int|
            i <= k < j ==> #[trigger] t[k] != c,
    decreases t.len() - i,
{
    if 0 <= i < t.len() && t[i] != c {
        lemma_find_char_between(t, i + 1, c);
    }
}

proof fn lemma_alpha_end_between(t: Seq<char>, i: int)
    requires
        0 <= i <= t.len(),
    ensures
        i <= alpha_end(t, i) <= t.len(),
        forall|k: int| i <= k < alpha_end(t, i) ==> is_alpha_char(#[trigger] t[k]),
    decreases t.len() - i,
{
    if i < t.len() && is_alpha_char(t[i]) {
        lemma_alpha_end_between(t, i + 1);
    }
}

/// What may follow an unquoted name: anything but a letter.
pub open spec fn after_name(c: char) -> bool {
    !is_alpha_char(c)
}

proof fn lemma_name_at(t: Seq<char>, i: int, n: Seq<char>)
    requires
        parsed_name(n),
        holds_at(t, i, fmt_name(n)),
        ends_or(t, i + fmt_name(n).len(), |c: char| after_name(c)),
    ensures
        spec_tz_name(t, i) matches Ok((a, b, k)) && t.subrange(a, b) == n && k == i + fmt_name(
            n,
        ).len(),
{
    let f = fmt_name(n);
    if exists|j: int| 0 <= j < n.len() && !is_alpha_char(#[trigger] n[j]) {
        assert(f == seq!['<'] + n + seq!['>']);
        lemma_holds_split(t, i, seq!['<'] + n, seq!['>']);
        lemma_holds_split(t, i, seq!['<'], n);
        lemma_holds_index(t, i, seq!['<'], 0);
        lemma_holds_index(t, i + 1 + n.len(), seq!['>'], 0);
        assert forall|k: int| i + 1 <= k < i + 1 + n.len() implies #[trigger] t[k] != '>' by {
            lemma_holds_index(t, i + 1, n, k - i - 1);
        }
        lemma_find_char(t, i + 1, i + 1 + n.len(), '>');
    } else {
        assert(f == n);
        lemma_holds_index(t, i, n, 0);
        assert(is_alpha_char(n[0]));
        assert forall|k: int| i <= k < i + n.len() implies is_alpha_char(#[trigger] t[k]) by {
            lemma_holds_index(t, i, n, k - i);
        }
        lemma_alpha_end(t, i, i + n.len());
    }
}

/// A parsed name is non-empty-free of `>` when it is not empty.
proof fn lemma_name_parsed(t: Seq<char>, i: int)
    requires
        0 <= i <= t.len(),
        spec_tz_name(t, i) is Ok,
    ensures
        spec_tz_name(t, i) matches Ok((a, b, k)) && i <= a <= b <= k <= t.len() && no_close(
            t.subrange(a, b),
        ),
{
    if i < t.len() {
        if t[i] == '<' {
            lemma_find_char_between(t, i + 1, '>');
        } else {
            lemma_alpha_end_between(t, i);
        }
    }
}

// ---------------------------------------------------------------------------
// Rules
// ---------------------------------------------------------------------------

proof fn lemma_rule_at(t: Seq<char>, i: int, r: TransitionRule)
    requires
        parsed_rule(r),
        holds_at(t, i, fmt_rule(r)),
        ends_or(t, i + fmt_rule(r).len(), |c: char| c == ','),
    ensures
        spec_tz_rule(t, i) == Ok::<(TransitionRule, int), &'static str>(
            (r, i + fmt_rule(r).len()),
        ),
{
    let date = match r.kind {
        RuleKind::Julian => seq!['J'] + fmt_int(r.day as int),
        RuleKind::DayOfYear => fmt_int(r.day as int),
        RuleKind::MonthWeekDay => seq!['M'] + fmt_int(r.mon as int) + seq!['.'] + fmt_int(
            r.week as int,
        ) + seq!['.'] + fmt_int(r.day as int),
    };
    let time = if r.time != 7200 {
        seq!['/'] + fmt_offset(r.time as int)
    } else {
        Seq::<char>::empty()
    };
    assert(fmt_rule(r) == date + time);
    lemma_holds_split(t, i, date, time);
    let k = i + date.len();
    // What follows the date: '/', ',' or the end.
    if r.time != 7200 {
        lemma_holds_split(t, k, seq!['/'], fmt_offset(r.time as int));
        lemma_holds_index(t, k, seq!['/'], 0);
    }
    assert(ends_or(t, k, |c: char| !is_digit_char(c))) by {
        if r.time != 7200 {
        } else {
            assert(time.len() == 0);
        }
    }
    let base = rule_of(r.kind, r.day as int, r.week as int, r.mon as int);
    match r.kind {
        RuleKind::Julian => {
            let d = fmt_int(r.day as int);
            lemma_holds_split(t, i, seq!['J'], d);
            lemma_holds_index(t, i, seq!['J'], 0);
            lemma_dec_at(t, i + 1, r.day as nat, 1, 365);
        },
        RuleKind::DayOfYear => {
            let d = fmt_int(r.day as int);
            lemma_dec_digits(r.day as nat);
            lemma_holds_index(t, i, d, 0);
            lemma_dec_at(t, i, r.day as nat, 0, 365);
        },
        RuleKind::MonthWeekDay => {
            let dm = fmt_int(r.mon as int);
            let dw = fmt_int(r.week as int);
            let dd = fmt_int(r.day as int);
            let p1 = seq!['M'] + dm;
            let p2 = p1 + seq!['.'];
            let p3 = p2 + dw;
            let p4 = p3 + seq!['.'];
            assert(date == p4 + dd);
            lemma_holds_split(t, i, p4, dd);
            lemma_holds_split(t, i, p3, seq!['.']);
            lemma_holds_split(t, i, p2, dw);
            lemma_holds_split(t, i, p1, seq!['.']);
            lemma_holds_split(t, i, seq!['M'], dm);
            lemma_holds_index(t, i, seq!['M'], 0);
            lemma_holds_index(t, i + p1.len(), seq!['.'], 0);
            lemma_holds_index(t, i + p3.len(), seq!['.'], 0);
            lemma_dec_at(t, i + 1, r.mon as nat, 1, 12);
            lemma_dec_at(t, i + p2.len(), r.week as nat, 1, 5);
            lemma_dec_at(t, i + p4.len(), r.day as nat, 0, 6);
        },
    }
    assert(spec_rule_date(t, i) == Ok::<(TransitionRule, int), &'static str>((base, k)));
    if r.time != 7200 {
        lemma_offset_at(t, k + 1, r.time as int);
    } else {
        assert(base == r);
    }
}

proof fn lemma_rule_parsed(t: Seq<char>, i: int)
    requires
        0 <= i,
        spec_tz_rule(t, i) is Ok,
    ensures
        spec_tz_rule(t, i) matches Ok((r, k)) && parsed_rule(r) && i < k <= t.len(),
{
    if s_is(t, i, 'M') {
        lemma_num_end(t, i + 1, 1, 12);
        if let Ok((mon, k1)) = spec_tz_num(t, i + 1, 1, 12) {
            lemma_num_end(t, k1 + 1, 1, 5);
            if let Ok((week, k2)) = spec_tz_num(t, k1 + 1, 1, 5) {
                lemma_num_end(t, k2 + 1, 0, 6);
            }
        }
    } else if s_is(t, i, 'J') {
        lemma_num_end(t, i + 1, 1, 365);
    } else {
        lemma_num_end(t, i, 0, 365);
    }
    if let Ok((r, k)) = spec_rule_date(t, i) {
        if char_at_is(t, k, '/') {
            lemma_offset_bound(t, k + 1);
        }
    }
}

spec fn abs_int(v: int) -> int {
    if v < 0 {
        -v
    } else {
        v
    }
}

spec fn s_is(t: Seq<char>, i: int, c: char) -> bool {
    t[i] == c
}

// ---------------------------------------------------------------------------
// The round trip
// ---------------------------------------------------------------------------

/// The parsed rule, as the facts the round trip needs.
pub open spec fn parsed_model(m: PosixTzModel) -> bool {
    &&& parsed_name(m.std_abbrev)
    &&& -max_offset() <= m.std_offset <= max_offset()
    &&& if m.dst_abbrev.len() == 0 {
        m.dst_offset == 0 && m.start == default_rule() && m.end == default_rule()
    } else {
        &&& no_close(m.dst_abbrev)
        &&& m.dst_offset == m.std_offset + 3600 || -max_offset() <= m.dst_offset <= max_offset()
        &&& parsed_rule(m.start)
        &&& parsed_rule(m.end)
    }
}

proof fn lemma_parse_shape(s: Seq<char>)
    requires
        spec_parse_posix_tz(s) is Ok,
    ensures
        parsed_model(spec_parse_posix_tz(s)->Ok_0),
{
    lemma_name_parsed(s, 0);
    if let Ok((a, b, k)) = spec_tz_name(s, 0) {
        lemma_offset_bound(s, k);
        if let Ok((off, k1)) = spec_tz_offset(s, k) {
            if k1 < s.len() {
                lemma_name_parsed(s, k1);
                if let Ok((c, d, k2)) = spec_tz_name(s, k1) {
                    if k2 < s.len() && s[k2] != ',' {
                        lemma_offset_bound(s, k2);
                    }
                    let k3 = match spec_tz_offset(s, k2) {
                        Ok((o, k3)) => if k2 < s.len() && s[k2] != ',' {
                            k3
                        } else {
                            k2
                        },
                        Err(_) => k2,
                    };
                    if k3 < s.len() && s[k3] == ',' {
                        lemma_rule_parsed(s, k3 + 1);
                        if let Ok((st, k4)) = spec_tz_rule(s, k3 + 1) {
                            if char_at_is(s, k4, ',') {
                                lemma_rule_parsed(s, k4 + 1);
                            }
                        }
                    }
                }
            }
        }
    }
}

/// Formatting a rule that [`parse_posix_tz`](crate::posix::parse_posix_tz)
/// accepted, and parsing the text again, gives back the same rule.
pub proof fn law_format_parse_round_trip(s: Seq<char>)
    requires
        spec_parse_posix_tz(s) is Ok,
    ensures
        spec_parse_posix_tz(fmt_posix_tz(spec_parse_posix_tz(s)->Ok_0)) == spec_parse_posix_tz(s),
{
    let m = spec_parse_posix_tz(s)->Ok_0;
    lemma_parse_shape(s);
    lemma_round_trip_model(m);
}

/// The two rules after the DST name and offset, at the position of the first `,`.
proof fn lemma_rules_at(t: Seq<char>, k: int, a: TransitionRule, b: TransitionRule)
    requires
        parsed_rule(a),
        parsed_rule(b),
        holds_at(t, k, seq![','] + fmt_rule(a) + seq![','] + fmt_rule(b)),
        k + 2 + fmt_rule(a).len() + fmt_rule(b).len() == t.len(),
    ensures
        spec_tz_rules(t, k) == Ok::<(TransitionRule, TransitionRule), &'static str>((a, b)),
{
    let r1 = fmt_rule(a);
    let r2 = fmt_rule(b);
    lemma_holds_split(t, k, seq![','] + r1 + seq![','], r2);
    lemma_holds_split(t, k, seq![','] + r1, seq![',']);
    lemma_holds_split(t, k, seq![','], r1);
    lemma_holds_index(t, k, seq![','], 0);
    let k4 = k + 1 + r1.len();
    lemma_holds_index(t, k4, seq![','], 0);
    lemma_rule_at(t, k + 1, a);
    lemma_rule_at(t, k4 + 1, b);
}

/// The DST part of the text of a rule with the shape of a parsed one.
proof fn lemma_dst_part_at(t: Seq<char>, k: int, m: PosixTzModel)
    requires
        parsed_model(m),
        m.dst_abbrev.len() > 0,
        holds_at(
            t,
            k,
            fmt_name(m.dst_abbrev) + (if m.dst_offset != m.std_offset + 3600 {
                fmt_offset(-m.dst_offset)
            } else {
                Seq::<char>::empty()
            }) + seq![','] + fmt_rule(m.start) + seq![','] + fmt_rule(m.end),
        ),
        k + fmt_name(m.dst_abbrev).len() + (if m.dst_offset != m.std_offset + 3600 {
            fmt_offset(-m.dst_offset)
        } else {
            Seq::<char>::empty()
        }).len() + 2 + fmt_rule(m.start).len() + fmt_rule(m.end).len() == t.len(),
    ensures
        spec_dst_part(t, k, m.std_abbrev, m.std_offset) == Ok::<PosixTzModel, &'static str>(m),
{
    let n2 = fmt_name(m.dst_abbrev);
    let o2 = if m.dst_offset != m.std_offset + 3600 {
        fmt_offset(-m.dst_offset)
    } else {
        Seq::<char>::empty()
    };
    let r1 = fmt_rule(m.start);
    let r2 = fmt_rule(m.end);
    let tail = seq![','] + r1 + seq![','] + r2;
    assert(n2 + o2 + seq![','] + r1 + seq![','] + r2 =~= n2 + o2 + tail);
    lemma_holds_split(t, k, n2 + o2, tail);
    lemma_holds_split(t, k, n2, o2);
    let k2 = k + n2.len();
    let k3 = k2 + o2.len();
    lemma_holds_index(t, k3, tail, 0);
    if m.dst_offset != m.std_offset + 3600 {
        lemma_dec_digits((abs_int(m.dst_offset) / 3600) as nat);
        lemma_holds_index(t, k2, o2, 0);
        lemma_name_at(t, k, m.dst_abbrev);
        lemma_offset_at(t, k2, -m.dst_offset);
        assert(k2 < t.len() && t[k2] != ',');
    } else {
        assert(o2.len() == 0);
        lemma_name_at(t, k, m.dst_abbrev);
    }
    lemma_rules_at(t, k3, m.start, m.end);
}

/// `t` opens with the standard name and offset of `m`, and what follows them
/// ends the text or parses as the DST part of `m`.
spec fn std_part_ok(t: Seq<char>, m: PosixTzModel) -> bool {
    match spec_tz_name(t, 0) {
        Ok((a, b, k)) => {
            &&& a < b
            &&& t.subrange(a, b) == m.std_abbrev
            &&& match spec_tz_offset(t, k) {
                Ok((off, k1)) => {
                    &&& off == -m.std_offset
                    &&& m.dst_abbrev.len() == 0 ==> k1 >= t.len()
                    &&& m.dst_abbrev.len() > 0 ==> k1 < t.len() && spec_dst_part(
                        t,
                        k1,
                        m.std_abbrev,
                        m.std_offset,
                    ) == Ok::<PosixTzModel, &'static str>(m)
                },
                Err(_) => false,
            }
        },
        Err(_) => false,
    }
}

/// The standard name and offset at the start of the text of a rule with
/// the shape of a parsed one, and what follows them.
proof fn lemma_std_part(m: PosixTzModel)
    requires
        parsed_model(m),
    ensures
        std_part_ok(fmt_posix_tz(m), m),
{
    let t = fmt_posix_tz(m);
    let n1 = fmt_name(m.std_abbrev);
    let o1 = fmt_offset(-m.std_offset);
    let with_dst = m.dst_abbrev.len() > 0;
    let o2 = if m.dst_offset != m.std_offset + 3600 {
        fmt_offset(-m.dst_offset)
    } else {
        Seq::<char>::empty()
    };
    let rest = if !with_dst {
        Seq::<char>::empty()
    } else {
        fmt_name(m.dst_abbrev) + o2 + seq![','] + fmt_rule(m.start) + seq![','] + fmt_rule(m.end)
    };
    assert(t == n1 + o1 + rest);
    assert(holds_at(t, 0, t)) by {
        assert(t.subrange(0, t.len() as int) =~= t);
    }
    lemma_holds_split(t, 0, n1 + o1, rest);
    lemma_holds_split(t, 0, n1, o1);
    let k = n1.len() as int;
    let k1 = k + o1.len();
    // The offset starts with '-' or a digit, so the name ends before it.
    lemma_dec_digits((abs_int(m.std_offset) / 3600) as nat);
    lemma_holds_index(t, k, o1, 0);
    lemma_name_at(t, 0, m.std_abbrev);
    if !with_dst {
        assert(rest.len() == 0);
        lemma_offset_at(t, k, -m.std_offset);
    } else {
        lemma_holds_index(t, k1, rest, 0);
        lemma_offset_at(t, k, -m.std_offset);
        lemma_dst_part_at(t, k1, m);
    }
}

/// Parsing the text of a rule with the shape of a parsed one gives it back.
pub proof fn lemma_round_trip_model(m: PosixTzModel)
    requires
        parsed_model(m),
    ensures
        spec_parse_posix_tz(fmt_posix_tz(m)) == Ok::<PosixTzModel, &'static str>(m),
{
    lemma_std_part(m);
    lemma_parse_parts(fmt_posix_tz(m), m);
}

/// A text that opens with the standard part of `m` and goes on with its DST
/// part, if any, parses as `m`.
proof fn lemma_parse_parts(t: Seq<char>, m: PosixTzModel)
    requires
        parsed_model(m),
        std_part_ok(t, m),
    ensures
        spec_parse_posix_tz(t) == Ok::<PosixTzModel, &'static str>(m),
{
    if m.dst_abbrev.len() == 0 {
        assert(m.dst_abbrev =~= Seq::<char>::empty());
    }
}

} // verus!

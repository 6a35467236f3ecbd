//! Per-zone metadata from the `zone1970.tab` and `iso3166.tab` tables.
//!
//! Both tables are scanned on demand, line by line; nothing is indexed and
//! the results borrow from the table text. Coordinates are kept in
//! ten-thousandths of a degree.

use vstd::prelude::*;
use vstd::string::*;
use vstd::utf8::encode_utf8;

use crate::text::chars_vec;

verus! {

// ---------------------------------------------------------------------------
// Fields and lines
// ---------------------------------------------------------------------------

/// End of the field that starts at `i`: the first `c` before `end`, or `end`.
pub open spec fn field_end(t: Seq<char>, i: int, end: int, c: char) -> int
    decreases end - i,
{
    if i < end && t[i] != c {
        field_end(t, i + 1, end, c)
    } else {
        i
    }
}

/// A field ends at or after its start, and before the separator it stops at.
pub proof fn lemma_field_end(t: Seq<char>, i: int, end: int, c: char)
    ensures
        i <= end ==> i <= field_end(t, i, end, c) <= end,
        field_end(t, i, end, c) >= i,
        0 <= i && field_end(t, i, end, c) < end ==> t[field_end(t, i, end, c)] == c,
        forall|k: int| i <= k < field_end(t, i, end, c) ==> #[trigger] t[k] != c,
    decreases end - i,
{
    if i < end && t[i] != c {
        lemma_field_end(t, i + 1, end, c);
    }
}

/// The pieces of `t` from `i` on, split at each `c`, as `str::split` gives them.
pub open spec fn split_pieces(t: Seq<char>, i: int, c: char) -> Seq<Seq<char>>
    decreases t.len() - i,
{
    let e = field_end(t, i, t.len() as int, c);
    proof {
        lemma_field_end(t, i, t.len() as int, c);
    }
    if e < t.len() {
        seq![t.subrange(i, e)] + split_pieces(t, e + 1, c)
    } else {
        seq![t.subrange(i, e)]
    }
}

// ---------------------------------------------------------------------------
// Coordinates
// ---------------------------------------------------------------------------

/// `b` is the ASCII code of a decimal digit.
pub open spec fn is_digit_byte(b: u8) -> bool {
    48 <= b <= 57
}

/// The digits of `b[i..j]` read as a decimal number; other bytes are skipped.
pub open spec fn digits_of(b: Seq<u8>, i: int, j: int) -> int
    decreases j - i,
{
    if j <= i {
        0
    } else if is_digit_byte(b[j - 1]) {
        digits_of(b, i, j - 1) * 10 + (b[j - 1] - 48)
    } else {
        digits_of(b, i, j - 1)
    }
}

/// Index of the first `+` or `-` at or after `i`, or `b.len()` if none.
pub open spec fn sign_from(b: Seq<u8>, i: int) -> int
    decreases b.len() - i,
{
    if 0 <= i < b.len() && b[i] != 43 && b[i] != 45 {
        sign_from(b, i + 1)
    } else {
        i
    }
}

/// `±DD[D]MM[SS]` in ten-thousandths of a degree, rounded half up;
/// 0 when too short. `deg_digits` is 2 for latitude, 3 for longitude.
pub open spec fn dms_e4(b: Seq<u8>, deg_digits: int) -> int {
    if b.len() < 3 + deg_digits {
        0
    } else {
        let deg = digits_of(b, 1, 1 + deg_digits);
        let min = digits_of(b, 1 + deg_digits, 3 + deg_digits);
        let sec = if b.len() >= 5 + deg_digits {
            digits_of(b, 3 + deg_digits, 5 + deg_digits)
        } else {
            0
        };
        let v = ((deg * 3600 + min * 60 + sec) * 10000 + 1800) / 3600;
        if b[0] == 45 {
            -v
        } else {
            v
        }
    }
}

/// Latitude and longitude of an ISO 6709 `±DDMM[SS]±DDDMM[SS]` string, in
/// ten-thousandths of a degree; `(0, 0)` when no second sign is found.
pub open spec fn iso6709_e4(b: Seq<u8>) -> (int, int) {
    let k = sign_from(b, 1);
    if k >= b.len() {
        (0, 0)
    } else {
        (dms_e4(b.subrange(0, k), 2), dms_e4(b.subrange(k, b.len() as int), 3))
    }
}

/// Decimal value of the digit bytes in `b[from..to]`; other bytes are skipped.
fn atoi(b: &[u8], from: usize, to: usize) -> (r: i64)
    requires
        from <= to <= b@.len(),
        to - from <= 3,
    ensures
        r == digits_of(b@, from as int, to as int),
        0 <= r <= 999,
{
    let mut n: i64 = 0;
    let mut i = from;
    while i < to
        invariant
            from <= i <= to <= b@.len(),
            to - from <= 3,
            n == digits_of(b@, from as int, i as int),
            0 <= n,
            i - from <= 0 ==> n <= 0,
            i - from <= 1 ==> n <= 9,
            i - from <= 2 ==> n <= 99,
            n <= 999,
        decreases to - i,
    {
        let c = b[i];
        if 48 <= c && c <= 57 {
            n = n * 10 + (c - 48) as i64;
        }
        i = i + 1;
    }
    n
}

/// `b[from..to]` as `±DD[D]MM[SS]`, in ten-thousandths of a degree.
fn parse_dms(b: &[u8], from: usize, to: usize, deg_digits: usize) -> (r: i64)
    requires
        from <= to <= b@.len(),
        deg_digits == 2 || deg_digits == 3,
    ensures
        r == dms_e4(b@.subrange(from as int, to as int), deg_digits as int),
{
    let ghost s = b@.subrange(from as int, to as int);
    if to - from < 3 + deg_digits {
        return 0;
    }
    let neg = b[from] == 45;
    let i = from + 1;
    let deg = atoi(b, i, i + deg_digits);
    let i = i + deg_digits;
    let min = atoi(b, i, i + 2);
    let i = i + 2;
    let sec = if to - i >= 2 {
        atoi(b, i, i + 2)
    } else {
        0
    };
    proof {
        lemma_digits_of_shift(b@, from as int, to as int, 1, 1 + deg_digits);
        lemma_digits_of_shift(b@, from as int, to as int, 1 + deg_digits, 3 + deg_digits);
        if to - i >= 2 {
            lemma_digits_of_shift(b@, from as int, to as int, 3 + deg_digits, 5 + deg_digits);
        }
    }
    let total = deg * 3600 + min * 60 + sec;
    let v = (total * 10000 + 1800) / 3600;
    if neg {
        -v
    } else {
        v
    }
}

proof fn lemma_digits_of_shift(b: Seq<u8>, from: int, to: int, i: int, j: int)
    requires
        0 <= from <= to <= b.len(),
        0 <= i <= j <= to - from,
    ensures
        digits_of(b.subrange(from, to), i, j) == digits_of(b, from + i, from + j),
    decreases j - i,
{
    if j > i {
        lemma_digits_of_shift(b, from, to, i, j - 1);
    }
}

/// Parses coordinates in ISO 6709 format `±DDMM±DDDMM` or `±DDMMSS±DDDMMSS`
/// into latitude and longitude in ten-thousandths of a degree, rounded to
/// the nearest; `(0, 0)` when the string has no second sign.
pub fn parse_iso6709(s: &str) -> (r: (i64, i64))
    ensures
        (r.0 as int, r.1 as int) == iso6709_e4(s.spec_bytes()),
{
    let b = s.as_bytes();
    let n = b.len();
    let mut k: usize = 1;
    while k < n && b[k] != 43 && b[k] != 45
        invariant
            1 <= k,
            n == b@.len(),
            sign_from(b@, 1) == sign_from(b@, k as int),
        decreases n - k,
    {
        k = k + 1;
    }
    if k >= n {
        return (0, 0);
    }
    let lat = parse_dms(b, 0, k, 2);
    let lon = parse_dms(b, k, n, 3);
    (lat, lon)
}

// ---------------------------------------------------------------------------
// The tables
// ---------------------------------------------------------------------------

/// The mathematical content of a [`ZoneMeta`].
pub struct MetaModel {
    pub lat_e4: int,
    pub lon_e4: int,
    pub commentary: Seq<char>,
    pub codes: Seq<char>,
}

/// Metadata about a timezone: associated countries and principal coordinates.
#[derive(Debug, Clone, Copy, PartialEq, Eq)]
pub struct ZoneMeta<'a> {
    /// Latitude of the principal location, in ten-thousandths of a degree
    /// (north positive).
    pub lat_e4: i64,
    /// Longitude of the principal location, in ten-thousandths of a degree
    /// (east positive).
    pub lon_e4: i64,
    /// Optional commentary (e.g. a region description); empty if none.
    pub commentary: &'a str,
    /// The raw comma-separated ISO 3166-1 alpha-2 country codes field.
    codes: &'a str,
}

impl<'a> View for ZoneMeta<'a> {
    type V = MetaModel;

    closed spec fn view(&self) -> MetaModel {
        MetaModel {
            lat_e4: self.lat_e4 as int,
            lon_e4: self.lon_e4 as int,
            commentary: self.commentary@,
            codes: self.codes@,
        }
    }
}

/// An ISO 3166 country associated with a timezone.
#[derive(Debug, Clone, Copy, PartialEq, Eq)]
pub struct Country<'a> {
    /// ISO 3166-1 alpha-2 code (e.g. `US`).
    pub code: &'a str,
    /// Country name (e.g. `United States`); empty if not found.
    pub name: &'a str,
}

/// A line of a table that is scanned: neither empty nor a `#` comment.
pub open spec fn is_entry_line(t: Seq<char>, i: int, e: int) -> bool {
    e != i && t[i] != '#'
}

/// The `zone1970.tab` entry for `name` among the lines starting at `i`:
/// `None` when there is none, or when a line before it has no tab.
pub open spec fn meta_from(t: Seq<char>, i: int, name: Seq<char>) -> Option<MetaModel>
    decreases t.len() - i,
{
    let e = field_end(t, i, t.len() as int, '\n');
    proof {
        lemma_field_end(t, i, t.len() as int, '\n');
    }
    let rest = if e < t.len() {
        meta_from(t, e + 1, name)
    } else {
        None
    };
    if !is_entry_line(t, i, e) {
        rest
    } else {
        let f0 = field_end(t, i, e, '\t');
        if f0 == e {
            None
        } else {
            let f1 = field_end(t, f0 + 1, e, '\t');
            if f1 == e {
                rest
            } else {
                let f2 = field_end(t, f1 + 1, e, '\t');
                if t.subrange(f1 + 1, f2) != name {
                    rest
                } else {
                    let coords = iso6709_e4(encode_utf8(t.subrange(f0 + 1, f1)));
                    Some(
                        MetaModel {
                            lat_e4: coords.0,
                            lon_e4: coords.1,
                            commentary: if f2 == e {
                                Seq::empty()
                            } else {
                                t.subrange(f2 + 1, field_end(t, f2 + 1, e, '\t'))
                            },
                            codes: t.subrange(i, f0),
                        },
                    )
                }
            }
        }
    }
}

/// The name that the `iso3166.tab` lines starting at `i` give `code`:
/// the rest of the first entry whose first field is `code`, or empty.
pub open spec fn iso_from(t: Seq<char>, i: int, code: Seq<char>) -> Seq<char>
    decreases t.len() - i,
{
    let e = field_end(t, i, t.len() as int, '\n');
    proof {
        lemma_field_end(t, i, t.len() as int, '\n');
    }
    let rest = if e < t.len() {
        iso_from(t, e + 1, code)
    } else {
        Seq::empty()
    };
    if !is_entry_line(t, i, e) {
        rest
    } else {
        let f0 = field_end(t, i, e, '\t');
        if t.subrange(i, f0) != code {
            rest
        } else if f0 == e {
            Seq::empty()
        } else {
            t.subrange(f0 + 1, e)
        }
    }
}

/// The end of the field of `t` that starts at `i`.
fn field_end_at(t: &Vec<char>, i: usize, end: usize, c: char) -> (r: usize)
    requires
        i <= end <= t@.len(),
    ensures
        r == field_end(t@, i as int, end as int, c),
        i <= r <= end,
{
    proof {
        lemma_field_end(t@, i as int, end as int, c);
    }
    let mut k = i;
    while k < end && t[k] != c
        invariant
            i <= k <= end <= t@.len(),
            field_end(t@, i as int, end as int, c) == field_end(t@, k as int, end as int, c),
        decreases end - k,
    {
        k = k + 1;
    }
    k
}

/// Whether `a[ai..aj]` and `b[bi..bj]` hold the same characters.
fn range_eq(a: &Vec<char>, ai: usize, aj: usize, b: &Vec<char>, bi: usize, bj: usize) -> (r: bool)
    requires
        ai <= aj <= a@.len(),
        bi <= bj <= b@.len(),
    ensures
        r == (a@.subrange(ai as int, aj as int) == b@.subrange(bi as int, bj as int)),
{
    if aj - ai != bj - bi {
        assert(a@.subrange(ai as int, aj as int).len() != b@.subrange(bi as int, bj as int).len());
        return false;
    }
    let mut k: usize = 0;
    while k < aj - ai
        invariant
            ai <= aj <= a@.len(),
            bi <= bj <= b@.len(),
            aj - ai == bj - bi,
            k <= aj - ai,
            forall|m: int| ai <= m < ai + k ==> #[trigger] a@[m] == b@[m - ai + bi],
        decreases aj - ai - k,
    {
        if a[ai + k] != b[bi + k] {
            assert(a@.subrange(ai as int, aj as int)[k as int] != b@.subrange(
                bi as int,
                bj as int,
            )[k as int]);
            return false;
        }
        k = k + 1;
    }
    assert(a@.subrange(ai as int, aj as int) =~= b@.subrange(bi as int, bj as int));
    true
}

/// Returns the metadata that the `zone1970.tab` text `table` gives the zone
/// named `name`, or `None` if it has no entry.
pub fn meta<'a>(table: &'a str, name: &str) -> (r: Option<ZoneMeta<'a>>)
    ensures
        match r {
            Some(m) => meta_from(table@, 0, name@) == Some(m@),
            None => meta_from(table@, 0, name@) is None,
        },
{
    let t = chars_vec(table);
    let nm = chars_vec(name);
    let n = t.len();
    let mut i: usize = 0;
    loop
        invariant
            t@ == table@,
            nm@ == name@,
            n == t@.len(),
            i <= n,
            meta_from(t@, 0, nm@) == meta_from(t@, i as int, nm@),
        decreases n - i,
    {
        let e = field_end_at(&t, i, n, '\n');
        let entry = e != i && t[i] != '#';
        if entry {
            let f0 = field_end_at(&t, i, e, '\t');
            if f0 == e {
                return None;
            }
            let f1 = field_end_at(&t, f0 + 1, e, '\t');
            if f1 != e {
                let f2 = field_end_at(&t, f1 + 1, e, '\t');
                if range_eq(&t, f1 + 1, f2, &nm, 0, nm.len()) {
                    proof {
                        assert(nm@.subrange(0, nm@.len() as int) =~= nm@);
                    }
                    let coord = table.substring_char(f0 + 1, f1);
                    let (lat, lon) = parse_iso6709(coord);
                    let commentary = if f2 == e {
                        table.substring_char(f2, f2)
                    } else {
                        let f3 = field_end_at(&t, f2 + 1, e, '\t');
                        table.substring_char(f2 + 1, f3)
                    };
                    let codes = table.substring_char(i, f0);
                    let m = ZoneMeta { lat_e4: lat, lon_e4: lon, commentary, codes };
                    proof {
                        if f2 == e {
                            assert(commentary@ =~= Seq::<char>::empty());
                        }
                    }
                    return Some(m);
                }
                proof {
                    assert(nm@.subrange(0, nm@.len() as int) =~= nm@);
                }
            }
        }
        if e >= n {
            return None;
        }
        i = e + 1;
    }
}

/// The name that the `iso3166.tab` text `table` (whose characters are `t`)
/// gives the code `code[from..to]`; empty if none.
fn iso_name<'a>(table: &'a str, t: &Vec<char>, code: &Vec<char>, from: usize, to: usize) -> (r:
    &'a str)
    requires
        t@ == table@,
        from <= to <= code@.len(),
    ensures
        r@ == iso_from(table@, 0, code@.subrange(from as int, to as int)),
{
    let ghost c = code@.subrange(from as int, to as int);
    let n = t.len();
    let mut i: usize = 0;
    loop
        invariant
            t@ == table@,
            n == t@.len(),
            i <= n,
            from <= to <= code@.len(),
            c == code@.subrange(from as int, to as int),
            iso_from(t@, 0, c) == iso_from(t@, i as int, c),
        decreases n - i,
    {
        let e = field_end_at(t, i, n, '\n');
        let entry = e != i && t[i] != '#';
        if entry {
            let f0 = field_end_at(t, i, e, '\t');
            if range_eq(t, i, f0, code, from, to) {
                if f0 == e {
                    let r = table.substring_char(e, e);
                    assert(r@ =~= Seq::<char>::empty());
                    return r;
                }
                return table.substring_char(f0 + 1, e);
            }
        }
        if e >= n {
            let r = table.substring_char(n, n);
            assert(r@ =~= Seq::<char>::empty());
            return r;
        }
        i = e + 1;
    }
}

impl<'a> ZoneMeta<'a> {
    /// The countries that overlap this timezone, one per comma-separated
    /// code, each with the name that the `iso3166.tab` text `iso_table`
    /// gives it (empty if none).
    pub fn countries(&self, iso_table: &'a str) -> (r: Vec<Country<'a>>)
        ensures
            r@.len() == split_pieces(self@.codes, 0, ',').len(),
            forall|k: int|
                0 <= k < r@.len() ==> {
                    &&& (#[trigger] r@[k]).code@ == split_pieces(self@.codes, 0, ',')[k]
                    &&& r@[k].name@ == iso_from(
                        iso_table@,
                        0,
                        split_pieces(self@.codes, 0, ',')[k],
                    )
                },
    {
        let cs = chars_vec(self.codes);
        let it = chars_vec(iso_table);
        let n = cs.len();
        let mut r: Vec<Country<'a>> = Vec::new();
        let mut i: usize = 0;
        let ghost mut done: Seq<Seq<char>> = Seq::empty();
        loop
            invariant
                cs@ == self.codes@,
                it@ == iso_table@,
                n == cs@.len(),
                i <= n,
                split_pieces(cs@, 0, ',') == done + split_pieces(cs@, i as int, ','),
                r@.len() == done.len(),
                forall|k: int|
                    0 <= k < r@.len() ==> {
                        &&& (#[trigger] r@[k]).code@ == done[k]
                        &&& r@[k].name@ == iso_from(iso_table@, 0, done[k])
                    },
            decreases n - i,
        {
            let e = field_end_at(&cs, i, n, ',');
            let code = self.codes.substring_char(i, e);
            let name = iso_name(iso_table, &it, &cs, i, e);
            r.push(Country { code, name });
            proof {
                let p = cs@.subrange(i as int, e as int);
                let old_done = done;
                done = done.push(p);
                assert(split_pieces(cs@, i as int, ',') == seq![p] + (if e < n {
                    split_pieces(cs@, e + 1, ',')
                } else {
                    Seq::empty()
                }));
                if e < n {
                    assert(old_done + (seq![p] + split_pieces(cs@, e + 1, ',')) =~= done
                        + split_pieces(cs@, e + 1, ','));
                } else {
                    assert(old_done + seq![p] =~= done);
                }
                assert forall|k: int| 0 <= k < r@.len() implies {
                    &&& (#[trigger] r@[k]).code@ == done[k]
                    &&& r@[k].name@ == iso_from(iso_table@, 0, done[k])
                } by {
                    if k < r@.len() - 1 {
                        assert(done[k] == old_done[k]);
                    }
                }
            }
            if e >= n {
                assert(done =~= split_pieces(cs@, 0, ','));
                return r;
            }
            i = e + 1;
        }
    }
}

} // verus!

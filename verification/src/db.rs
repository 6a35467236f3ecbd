//! The embedded timezone database: canonical zone names and their TZif bytes.
//!
//! The data itself is the IANA Time Zone Database compiled to TZif and
//! embedded by the `jiff-tzdb` crate; this module finds entries by exact name
//! and lists the names in sorted order.

use vstd::prelude::*;

use crate::text::{
    eq_ignore_ascii_case, lemma_eq_ignore_case_symmetric, lemma_str_lt_order, str_eq,
    str_eq_ignore_case, str_less, str_lt,
};

verus! {

/// The embedded database's entry whose name equals `query` ignoring ASCII
/// case: the entry's canonical name and its TZif bytes.
pub uninterp spec fn tzdb_entry(query: Seq<char>) -> Option<(Seq<char>, Seq<u8>)>;

/// `name` is the canonical name of an entry of the embedded database.
pub open spec fn is_canonical(name: Seq<char>) -> bool {
    tzdb_entry(name) matches Some(e) && e.0 == name
}

/// The TZif bytes of the entry named `name`.
pub open spec fn tzdb_data(name: Seq<char>) -> Seq<u8> {
    tzdb_entry(name)->Some_0.1
}

/// Looks `query` up in the embedded database (`jiff_tzdb::get`). The
/// contract claims that the result is the entry named by `query` ignoring
/// ASCII case, with that entry's canonical name, as the crate's binary search
/// over its case-insensitively sorted table shows.
#[verifier::external_body]
fn tzdb_get(query: &str) -> (r: Option<(&'static str, &'static [u8])>)
    ensures
        match r {
            Some(e) => tzdb_entry(query@) == Some((e.0@, e.1@)),
            None => tzdb_entry(query@) is None,
        },
        r matches Some(e) ==> str_eq_ignore_case(e.0@, query@),
{
    jiff_tzdb::get(query)
}

/// Lists the canonical names of the embedded database (`jiff_tzdb::available`).
/// The contract claims that the list holds exactly the canonical names, and
/// that no two of them are equal ignoring ASCII case, as the crate's table,
/// strictly sorted without regard to ASCII case, shows.
#[verifier::external_body]
fn tzdb_available() -> (r: Vec<&'static str>)
    ensures
        forall|i: int| 0 <= i < r@.len() ==> is_canonical(#[trigger] r@[i]@),
        forall|s: Seq<char>|
            is_canonical(s) ==> exists|i: int| 0 <= i < r@.len() && #[trigger] r@[i]@ == s,
        forall|i: int, j: int|
            0 <= i < j < r@.len() ==> !str_eq_ignore_case(#[trigger] r@[i]@, #[trigger] r@[j]@),
{
    jiff_tzdb::available().collect()
}

/// Returns the canonical name and bytes of the entry named `name`.
pub fn find(name: &str) -> (r: Option<(&'static str, &'static [u8])>)
    ensures
        match r {
            Some(e) => e.0@ == name@ && is_canonical(name@) && e.1@ == tzdb_data(name@),
            None => !is_canonical(name@),
        },
{
    match tzdb_get(name) {
        Some((canonical, data)) => {
            if str_eq(canonical, name) {
                Some((canonical, data))
            } else {
                None
            }
        },
        None => None,
    }
}

/// Returns just the bytes of the entry named `name`.
pub fn file(name: &str) -> (r: Option<&'static [u8]>)
    ensures
        match r {
            Some(d) => is_canonical(name@) && d@ == tzdb_data(name@),
            None => !is_canonical(name@),
        },
{
    match find(name) {
        Some((_, data)) => Some(data),
        None => None,
    }
}

/// The names are strictly increasing in the order of `str`.
pub open spec fn strictly_sorted(names: Seq<&'static str>) -> bool {
    forall|i: int, j: int| 0 <= i < j < names.len() ==> str_lt(names[i]@, names[j]@)
}

/// Inserts `x` into the sorted `out` at its place.
fn insert_sorted(out: &mut Vec<&'static str>, x: &'static str)
    requires
        strictly_sorted(old(out)@),
        forall|i: int| 0 <= i < old(out)@.len() ==> (#[trigger] old(out)@[i])@ != x@,
    ensures
        strictly_sorted(final(out)@),
        forall|y: &'static str| #[trigger] final(out)@.contains(y) <==> (old(out)@.contains(y) || y == x),
{
    let mut p: usize = 0;
    while p < out.len() && str_less(out[p], x)
        invariant
            p <= out@.len(),
            forall|q: int| 0 <= q < p ==> str_lt((#[trigger] out@[q])@, x@),
        decreases out.len() - p,
    {
        p = p + 1;
    }
    let ghost old_out = out@;
    proof {
        if p < old_out.len() {
            lemma_str_lt_order(x@, old_out[p as int]@, x@);
            assert forall|q: int| p <= q < old_out.len() implies str_lt(x@, (#[trigger] old_out[q])@) by {
                if q > p {
                    lemma_str_lt_order(x@, old_out[p as int]@, old_out[q]@);
                }
            }
        }
    }
    out.insert(p, x);
    proof {
        assert forall|i: int, j: int| 0 <= i < j < out@.len() implies str_lt(out@[i]@, out@[j]@) by {
            if j < p {
                assert(out@[i] == old_out[i] && out@[j] == old_out[j]);
            } else if j == p {
                assert(out@[i] == old_out[i]);
            } else if i < p {
                assert(out@[i] == old_out[i] && out@[j] == old_out[j - 1]);
                lemma_str_lt_order(old_out[i]@, x@, old_out[j - 1]@);
            } else if i == p {
                assert(out@[j] == old_out[j - 1]);
            } else {
                assert(out@[i] == old_out[i - 1] && out@[j] == old_out[j - 1]);
            }
        }
        assert forall|y: &'static str| #[trigger] out@.contains(y) <==> (old_out.contains(y) || y == x) by {
            if out@.contains(y) {
                let i = choose|i: int| 0 <= i < out@.len() && out@[i] == y;
                if i < p {
                    assert(old_out[i] == y);
                } else if i > p {
                    assert(old_out[i - 1] == y);
                }
            }
            if old_out.contains(y) {
                let i = choose|i: int| 0 <= i < old_out.len() && old_out[i] == y;
                if i < p {
                    assert(out@[i] == y);
                } else {
                    assert(out@[i + 1] == y);
                }
            }
            if y == x {
                assert(out@[p as int] == y);
            }
        }
    }
}

/// Returns every entry name, in sorted order.
pub fn names() -> (r: Vec<&'static str>)
    ensures
        forall|i: int| 0 <= i < r@.len() ==> is_canonical(#[trigger] r@[i]@),
        forall|s: Seq<char>|
            is_canonical(s) ==> exists|i: int| 0 <= i < r@.len() && #[trigger] r@[i]@ == s,
        forall|a: int, b: int|
            0 <= a < b < r@.len() ==> !str_eq_ignore_case(#[trigger] r@[a]@, #[trigger] r@[b]@),
        strictly_sorted(r@),
{
    let src = tzdb_available();
    let mut out: Vec<&'static str> = Vec::new();
    let mut k: usize = 0;
    while k < src.len()
        invariant
            k <= src@.len(),
            forall|i: int| 0 <= i < src@.len() ==> is_canonical(#[trigger] src@[i]@),
            forall|i: int, j: int|
                0 <= i < j < src@.len() ==> !str_eq_ignore_case(
                    #[trigger] src@[i]@,
                    #[trigger] src@[j]@,
                ),
            strictly_sorted(out@),
            forall|y: &'static str| #[trigger] out@.contains(y) <==> src@.subrange(0, k as int).contains(y),
        decreases src.len() - k,
    {
        let x = src[k];
        proof {
            assert forall|i: int| 0 <= i < out@.len() implies (#[trigger] out@[i])@ != x@ by {
                assert(out@.contains(out@[i]));
                let j = choose|j: int| 0 <= j < k && src@.subrange(0, k as int)[j] == out@[i];
                assert(src@[j] == out@[i]);
                assert(!str_eq_ignore_case(src@[j]@, src@[k as int]@));
                assert(str_eq_ignore_case(x@, x@));
            }
        }
        insert_sorted(&mut out, x);
        proof {
            let k1 = k + 1;
            let next = src@.subrange(0, k1);
            let prev = src@.subrange(0, k as int);
            assert forall|y: &'static str| #[trigger] out@.contains(y) <==> next.contains(y) by {
                if next.contains(y) {
                    let j = choose|j: int| 0 <= j < next.len() && next[j] == y;
                    if j < k {
                        assert(prev[j] == y);
                    }
                }
                if prev.contains(y) {
                    let j = choose|j: int| 0 <= j < prev.len() && prev[j] == y;
                    assert(next[j] == y);
                }
                if y == x {
                    assert(next[k as int] == y);
                }
            }
        }
        k = k + 1;
    }
    proof {
        assert(src@.subrange(0, k as int) =~= src@);
        assert forall|i: int| 0 <= i < out@.len() implies is_canonical(#[trigger] out@[i]@) by {
            assert(out@.contains(out@[i]));
            let j = choose|j: int| 0 <= j < src@.len() && src@[j] == out@[i];
            assert(is_canonical(src@[j]@));
        }
        assert forall|s: Seq<char>| is_canonical(s) implies exists|i: int|
            0 <= i < out@.len() && #[trigger] out@[i]@ == s by {
            let j = choose|j: int| 0 <= j < src@.len() && #[trigger] src@[j]@ == s;
            assert(src@.contains(src@[j]));
            assert(out@.contains(src@[j]));
            let i = choose|i: int| 0 <= i < out@.len() && out@[i] == src@[j];
            assert(out@[i]@ == s);
        }
        assert forall|a: int, b: int| 0 <= a < b < out@.len() implies !str_eq_ignore_case(
            #[trigger] out@[a]@,
            #[trigger] out@[b]@,
        ) by {
            assert(out@.contains(out@[a]));
            assert(out@.contains(out@[b]));
            let ja = choose|j: int| 0 <= j < src@.len() && src@[j] == out@[a];
            let jb = choose|j: int| 0 <= j < src@.len() && src@[j] == out@[b];
            lemma_str_lt_order(out@[a]@, out@[b]@, out@[b]@);
            assert(ja != jb);
            if ja < jb {
                assert(!str_eq_ignore_case(src@[ja]@, src@[jb]@));
            } else {
                assert(!str_eq_ignore_case(src@[jb]@, src@[ja]@));
                lemma_eq_ignore_case_symmetric(out@[a]@, out@[b]@);
            }
        }
    }
    out
}

} // verus!

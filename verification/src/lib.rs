//! `timezone_data` provides direct access to IANA timezone data: the
//! transitions, zone types, POSIX TZ rules, leap seconds, and metadata that
//! most timezone libraries keep private.
//!
//! The data is the IANA Time Zone Database compiled to TZif files, as the
//! `jiff-tzdb` crate embeds it; a zone is found by name and its TZif bytes
//! are parsed on load. Times are `i64` Unix seconds. Per-zone metadata is
//! read from the `zone1970.tab` and `iso3166.tab` tables handed in as text.

pub mod calendar;
pub mod chronology;
pub mod codegen;
pub mod db;
pub mod error;
pub mod meta;
pub mod posix;
pub mod posix_format;
pub mod text;
pub mod tzif;
pub mod zipstore;

pub use error::Error;
pub use meta::{meta, parse_iso6709, Country, ZoneMeta};
pub use posix::{parse_posix_tz, PosixTz, RuleKind, TransitionRule};
pub use tzif::{parse, LeapSecond, RangeIter, RangeTransition, Transition, Zone, ZoneType};

use vstd::prelude::*;

use crate::db::{is_canonical, tzdb_data};
use crate::text::{eq_ignore_ascii_case, str_eq_ignore_case};
use crate::tzif::{tzif_model, ZoneModel};

verus! {

/// The name `load` looks up: `"UTC"` for the empty name.
pub open spec fn load_query(name: Seq<char>) -> Seq<char> {
    if name.len() == 0 {
        "UTC"@
    } else {
        name
    }
}

/// What `load(name)` yields: the parsed entry named exactly `name`.
pub open spec fn spec_load(name: Seq<char>) -> Result<ZoneModel, Error> {
    let q = load_query(name);
    if is_canonical(q) {
        match tzif_model(q, tzdb_data(q)) {
            Ok(z) => Ok(z),
            Err(m) => Err(Error::BadData(m)),
        }
    } else {
        Err(Error::NotFound)
    }
}

/// A canonical name that equals `name` ignoring ASCII case, if any.
pub open spec fn insensitive_match(name: Seq<char>) -> Option<Seq<char>> {
    if exists|c: Seq<char>| is_canonical(c) && str_eq_ignore_case(c, name) {
        Some(choose|c: Seq<char>| is_canonical(c) && str_eq_ignore_case(c, name))
    } else {
        None
    }
}

/// What `load_insensitive(name)` yields.
pub open spec fn spec_load_insensitive(name: Seq<char>) -> Result<ZoneModel, Error> {
    if spec_load(name) is Ok {
        spec_load(name)
    } else {
        match insensitive_match(name) {
            Some(c) => spec_load(c),
            None => Err(Error::NotFound),
        }
    }
}

/// The view of a load result.
pub open spec fn zone_result_view(r: Result<Zone<'static>, Error>) -> Result<ZoneModel, Error> {
    match r {
        Ok(z) => Ok(z@),
        Err(e) => Err(e),
    }
}

/// Loading the empty name is loading `"UTC"`.
pub proof fn law_empty_name_is_utc()
    ensures
        spec_load(""@) == spec_load("UTC"@),
{
    reveal_strlit("");
    reveal_strlit("UTC");
}

/// Loads a [`Zone`] by IANA timezone name from the embedded database.
///
/// An empty name or `"UTC"` resolves to the `UTC` zone.
pub fn load(name: &str) -> (r: Result<Zone<'static>, Error>)
    ensures
        zone_result_view(r) == spec_load(name@),
{
    let query = if name.is_empty() {
        "UTC"
    } else {
        name
    };
    match db::find(query) {
        Some((canonical, data)) => match tzif::parse(canonical, data) {
            Ok(z) => Ok(z),
            Err(e) => Err(e),
        },
        None => Err(Error::NotFound),
    }
}

/// Two canonical names that equal a third ignoring ASCII case are the same.
proof fn lemma_insensitive_match_unique(all: Seq<&'static str>, name: Seq<char>, i: int)
    requires
        forall|s: Seq<char>| is_canonical(s) ==> exists|j: int| 0 <= j < all.len() && #[trigger] all[j]@ == s,
        forall|a: int, b: int|
            0 <= a < b < all.len() ==> !str_eq_ignore_case(#[trigger] all[a]@, #[trigger] all[b]@),
        0 <= i < all.len(),
        is_canonical(all[i]@),
        str_eq_ignore_case(all[i]@, name),
    ensures
        insensitive_match(name) == Some(all[i]@),
{
    let c = choose|c: Seq<char>| is_canonical(c) && str_eq_ignore_case(c, name);
    let j = choose|j: int| 0 <= j < all.len() && #[trigger] all[j]@ == c;
    if j != i {
        assert(str_eq_ignore_case(all[i]@, all[j]@));
        if i < j {
            assert(!str_eq_ignore_case(all[i]@, all[j]@));
        } else {
            assert(str_eq_ignore_case(all[j]@, all[i]@));
            assert(!str_eq_ignore_case(all[j]@, all[i]@));
        }
    }
}

/// Loads a [`Zone`] by name, falling back to case-insensitive matching.
pub fn load_insensitive(name: &str) -> (r: Result<Zone<'static>, Error>)
    ensures
        zone_result_view(r) == spec_load_insensitive(name@),
{
    match load(name) {
        Ok(z) => return Ok(z),
        Err(_) => {},
    }
    let all = db::names();
    let mut i: usize = 0;
    while i < all.len()
        invariant
            i <= all@.len(),
            spec_load(name@) is Err,
            forall|k: int| 0 <= k < all@.len() ==> is_canonical(#[trigger] all@[k]@),
            forall|s: Seq<char>|
                is_canonical(s) ==> exists|j: int| 0 <= j < all@.len() && #[trigger] all@[j]@ == s,
            forall|a: int, b: int|
                0 <= a < b < all@.len() ==> !str_eq_ignore_case(
                    #[trigger] all@[a]@,
                    #[trigger] all@[b]@,
                ),
            forall|k: int| 0 <= k < i ==> !str_eq_ignore_case((#[trigger] all@[k])@, name@),
        decreases all.len() - i,
    {
        if eq_ignore_ascii_case(all[i], name) {
            proof {
                lemma_insensitive_match_unique(all@, name@, i as int);
            }
            return load(all[i]);
        }
        i = i + 1;
    }
    proof {
        if exists|c: Seq<char>| is_canonical(c) && str_eq_ignore_case(c, name@) {
            let c = choose|c: Seq<char>| is_canonical(c) && str_eq_ignore_case(c, name@);
            let j = choose|j: int| 0 <= j < all@.len() && #[trigger] all@[j]@ == c;
            assert(!str_eq_ignore_case(all@[j]@, name@));
        }
    }
    Err(Error::NotFound)
}

/// `all` lists the canonical names, each once ignoring ASCII case, as
/// [`names`] returns them.
pub open spec fn is_name_list(all: Seq<&'static str>) -> bool {
    &&& forall|i: int| 0 <= i < all.len() ==> is_canonical(#[trigger] all[i]@)
    &&& forall|s: Seq<char>|
        is_canonical(s) ==> exists|i: int| 0 <= i < all.len() && #[trigger] all[i]@ == s
    &&& forall|a: int, b: int|
        0 <= a < b < all.len() ==> !str_eq_ignore_case(#[trigger] all[a]@, #[trigger] all[b]@)
}

/// What [`load_insensitive`] loads, in terms of the list that [`names`]
/// returns: what [`load`] loads when that succeeds; otherwise the listed name
/// that equals `name` ignoring ASCII case; otherwise nothing (`NotFound`).
pub proof fn law_load_insensitive_by_names(all: Seq<&'static str>, name: Seq<char>)
    requires
        is_name_list(all),
    ensures
        spec_load(name) is Ok ==> spec_load_insensitive(name) == spec_load(name),
        spec_load(name) is Err ==> forall|i: int|
            0 <= i < all.len() && str_eq_ignore_case(#[trigger] all[i]@, name)
                ==> spec_load_insensitive(name) == spec_load(all[i]@),
        spec_load(name) is Err && (forall|i: int|
            0 <= i < all.len() ==> !str_eq_ignore_case(#[trigger] all[i]@, name))
            ==> spec_load_insensitive(name) == Err::<ZoneModel, Error>(Error::NotFound),
{
    if spec_load(name) is Err {
        assert forall|i: int|
            0 <= i < all.len() && str_eq_ignore_case(#[trigger] all[i]@, name) implies spec_load_insensitive(
            name,
        ) == spec_load(all[i]@) by {
            lemma_insensitive_match_unique(all, name, i);
        }
        if forall|i: int| 0 <= i < all.len() ==> !str_eq_ignore_case(#[trigger] all[i]@, name) {
            if exists|c: Seq<char>| is_canonical(c) && str_eq_ignore_case(c, name) {
                let c = choose|c: Seq<char>| is_canonical(c) && str_eq_ignore_case(c, name);
                let j = choose|j: int| 0 <= j < all.len() && #[trigger] all[j]@ == c;
                assert(!str_eq_ignore_case(all[j]@, name));
            }
        }
    }
}

/// Returns every IANA timezone name in the embedded database, in sorted order.
pub fn names() -> (r: Vec<&'static str>)
    ensures
        forall|i: int| 0 <= i < r@.len() ==> is_canonical(#[trigger] r@[i]@),
        forall|s: Seq<char>|
            is_canonical(s) ==> exists|i: int| 0 <= i < r@.len() && #[trigger] r@[i]@ == s,
        forall|a: int, b: int|
            0 <= a < b < r@.len() ==> !str_eq_ignore_case(#[trigger] r@[a]@, #[trigger] r@[b]@),
        db::strictly_sorted(r@),
        is_name_list(r@),
{
    db::names()
}

} // verus!

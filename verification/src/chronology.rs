//! The transitions of a range come out in chronological order, there are
//! no more of them than the stored ones in range plus two a year, none that
//! should be there is missing, and those generated from a zone's rule agree
//! with what a lookup reports.

use vstd::prelude::*;

use crate::calendar::{
    lemma_days_before_year_monotonic, lemma_year_of_day, year_of_unix, year_start_unix,
};
use crate::posix::PosixTzModel;
use crate::tzif::{
    gen_items, in_range, law_lookup_after_last_transition, rule_type, sorted_times, stored_items,
    year_items, RangeTransitionModel, ZoneModel, ZoneTypeModel,
};

verus! {

/// Times strictly increase along `s`.
pub open spec fn strictly_increasing(s: Seq<RangeTransitionModel>) -> bool {
    forall|i: int, j: int| 0 <= i < j < s.len() ==> s[i].when < s[j].when
}

/// The stored transition times strictly increase.
pub open spec fn strictly_sorted_times(z: ZoneModel) -> bool {
    forall|i: int, j: int|
        0 <= i < j < z.transitions.len() ==> z.transitions[i].when < z.transitions[j].when
}

/// The rule's two transitions of `year` differ and both fall within the year.
pub open spec fn year_contained(p: PosixTzModel, year: int) -> bool {
    match p.transitions_of_year(year) {
        None => true,
        Some((s, e)) => {
            &&& s != e
            &&& year_start_unix(year) <= s < year_start_unix(year + 1)
            &&& year_start_unix(year) <= e < year_start_unix(year + 1)
        },
    }
}

/// Every time in `s` lies in `[lo, hi)`.
pub open spec fn times_within(s: Seq<RangeTransitionModel>, lo: int, hi: int) -> bool {
    forall|i: int| 0 <= i < s.len() ==> lo <= #[trigger] s[i].when < hi
}

proof fn lemma_concat_increasing(a: Seq<RangeTransitionModel>, b: Seq<RangeTransitionModel>)
    requires
        strictly_increasing(a),
        strictly_increasing(b),
        forall|i: int, j: int| 0 <= i < a.len() && 0 <= j < b.len() ==> a[i].when < b[j].when,
    ensures
        strictly_increasing(a + b),
{
    let c = a + b;
    assert forall|i: int, j: int| 0 <= i < j < c.len() implies c[i].when < c[j].when by {
        if j < a.len() {
            assert(c[i] == a[i] && c[j] == a[j]);
        } else if i >= a.len() {
            assert(c[i] == b[i - a.len()] && c[j] == b[j - a.len()]);
        } else {
            assert(c[i] == a[i] && c[j] == b[j - a.len()]);
        }
    }
}

/// The stored items from `idx` on are in order, no earlier than the
/// transition at `idx` and no later than the last stored one.
proof fn lemma_stored_items(z: ZoneModel, start: int, end: int, idx: int)
    requires
        strictly_sorted_times(z),
        0 <= idx,
    ensures
        strictly_increasing(stored_items(z, start, end, idx)),
        idx < z.transitions.len() ==> times_within(
            stored_items(z, start, end, idx),
            z.transitions[idx].when as int,
            z.last_stored() + 1,
        ),
        idx >= z.transitions.len() ==> stored_items(z, start, end, idx).len() == 0,
        times_within(stored_items(z, start, end, idx), start, end),
    decreases z.transitions.len() - idx,
{
    let n = z.transitions.len() as int;
    if idx < n {
        lemma_stored_items(z, start, end, idx + 1);
        let rest = stored_items(z, start, end, idx + 1);
        let t = z.transitions[idx];
        assert(t.when <= z.last_stored()) by {
            if idx < n - 1 {
                assert(z.transitions[idx].when < z.transitions[n - 1].when);
            }
        }
        if idx + 1 < n {
            assert(z.transitions[idx].when < z.transitions[idx + 1].when);
        }
        if t.when < end && t.when >= start {
            let head = seq![RangeTransitionModel { when: t.when as int, zone_type: z.types[t.type_idx as int] }];
            lemma_concat_increasing(head, rest);
            assert(stored_items(z, start, end, idx) == head + rest);
        }
    }
}

/// The items of one year are in order and fall within the year.
proof fn lemma_year_items(p: PosixTzModel, year: int, start: int, end: int, last: int)
    requires
        year_contained(p, year),
    ensures
        strictly_increasing(year_items(p, year, start, end, last)),
        times_within(
            year_items(p, year, start, end, last),
            year_start_unix(year),
            year_start_unix(year + 1),
        ),
        forall|i: int|
            0 <= i < year_items(p, year, start, end, last).len() ==> in_range(
                #[trigger] year_items(p, year, start, end, last)[i].when,
                start,
                end,
                last,
            ),
{
}

/// The generated items of the years `year..=end_year` are in order and
/// start no earlier than `year`.
proof fn lemma_gen_items(p: PosixTzModel, year: int, end_year: int, start: int, end: int, last: int)
    requires
        forall|y: int| year <= y <= end_year ==> #[trigger] year_contained(p, y),
    ensures
        strictly_increasing(gen_items(p, year, end_year, start, end, last)),
        forall|i: int|
            0 <= i < gen_items(p, year, end_year, start, end, last).len() ==> {
                &&& year_start_unix(year) <= #[trigger] gen_items(
                    p,
                    year,
                    end_year,
                    start,
                    end,
                    last,
                )[i].when
                &&& in_range(gen_items(p, year, end_year, start, end, last)[i].when, start, end, last)
            },
    decreases end_year + 1 - year,
{
    if year <= end_year {
        assert(year_contained(p, year));
        lemma_year_items(p, year, start, end, last);
        lemma_gen_items(p, year + 1, end_year, start, end, last);
        let a = year_items(p, year, start, end, last);
        let b = gen_items(p, year + 1, end_year, start, end, last);
        lemma_days_before_year_monotonic(year, year + 1);
        assert forall|i: int, j: int| 0 <= i < a.len() && 0 <= j < b.len() implies a[i].when
            < b[j].when by {
            assert(a[i].when < year_start_unix(year + 1));
            assert(year_start_unix(year + 1) <= b[j].when);
        }
        lemma_concat_increasing(a, b);
        let c = gen_items(p, year, end_year, start, end, last);
        assert(c == a + b);
        assert forall|i: int| 0 <= i < c.len() implies {
            &&& year_start_unix(year) <= #[trigger] c[i].when
            &&& in_range(c[i].when, start, end, last)
        } by {
            if i < a.len() {
                assert(c[i] == a[i]);
            } else {
                assert(c[i] == b[i - a.len()]);
            }
        }
    }
}

/// The transitions that [`Zone::transitions_for_range`](crate::tzif::Zone::transitions_for_range)
/// yields lie in the half-open range asked for; they are in strictly
/// increasing time order when the stored times
/// strictly increase and, for each year of the range, the extend rule's two
/// transitions differ and fall within that year.
pub proof fn law_range_chronological(z: ZoneModel, start: int, end: int)
    requires
        strictly_sorted_times(z),
        z.generates() ==> forall|y: int|
            year_of_unix(start) <= y <= year_of_unix(end) ==> #[trigger] year_contained(
                z.extend->Some_0,
                y,
            ),
    ensures
        strictly_increasing(z.range(start, end)),
        times_within(z.range(start, end), start, end),
{
    lemma_stored_items(z, start, end, 0);
    let a = stored_items(z, start, end, 0);
    if z.generates() {
        let p = z.extend->Some_0;
        let last = z.last_stored();
        lemma_gen_items(p, year_of_unix(start), year_of_unix(end), start, end, last);
        let b = gen_items(p, year_of_unix(start), year_of_unix(end), start, end, last);
        assert forall|i: int, j: int| 0 <= i < a.len() && 0 <= j < b.len() implies a[i].when
            < b[j].when by {
            assert(a[i].when <= last);
            assert(in_range(b[j].when, start, end, last));
        }
        lemma_concat_increasing(a, b);
        assert(z.range(start, end) == a + b);
        assert forall|i: int| 0 <= i < (a + b).len() implies start <= #[trigger] (a + b)[i].when
            < end by {
            if i < a.len() {
                assert((a + b)[i] == a[i]);
            } else {
                assert((a + b)[i] == b[i - a.len()]);
                assert(in_range(b[i - a.len()].when, start, end, last));
            }
        }
    } else {
        assert(z.range(start, end) =~= a);
    }
}

/// An instant within year `y` lies in that year.
proof fn lemma_year_of_instant(u: int, y: int)
    requires
        year_start_unix(y) <= u < year_start_unix(y + 1),
    ensures
        year_of_unix(u) == y,
{
    assert(crate::calendar::day_in_year(u / 86400, y));
    lemma_year_of_day(u / 86400, y);
}

/// Each transition of a year that the rule generates puts in effect the
/// type that the rule gives at its instant.
proof fn lemma_year_types(p: PosixTzModel, year: int, start: int, end: int, last: int)
    requires
        p.has_dst(),
        year_contained(p, year),
    ensures
        forall|i: int|
            0 <= i < year_items(p, year, start, end, last).len() ==> rule_type(
                p,
                #[trigger] year_items(p, year, start, end, last)[i].when,
            ) == year_items(p, year, start, end, last)[i].zone_type,
{
    if let Some((s, e)) = p.transitions_of_year(year) {
        lemma_year_of_instant(s, year);
        lemma_year_of_instant(e, year);
        assert(p.in_dst(s));
        assert(!p.in_dst(e));
    }
}

/// The generated transitions of the years `year..=end_year` put in effect
/// the type that the rule gives at their instants.
proof fn lemma_gen_types(p: PosixTzModel, year: int, end_year: int, start: int, end: int, last: int)
    requires
        p.has_dst(),
        forall|y: int| year <= y <= end_year ==> #[trigger] year_contained(p, y),
    ensures
        forall|i: int|
            0 <= i < gen_items(p, year, end_year, start, end, last).len() ==> rule_type(
                p,
                #[trigger] gen_items(p, year, end_year, start, end, last)[i].when,
            ) == gen_items(p, year, end_year, start, end, last)[i].zone_type,
    decreases end_year + 1 - year,
{
    if year <= end_year {
        assert(year_contained(p, year));
        lemma_year_types(p, year, start, end, last);
        lemma_gen_types(p, year + 1, end_year, start, end, last);
        let a = year_items(p, year, start, end, last);
        let b = gen_items(p, year + 1, end_year, start, end, last);
        let c = gen_items(p, year, end_year, start, end, last);
        assert(c == a + b);
        assert forall|i: int| 0 <= i < c.len() implies rule_type(p, #[trigger] c[i].when)
            == c[i].zone_type by {
            if i < a.len() {
                assert(c[i] == a[i]);
            } else {
                assert(c[i] == b[i - a.len()]);
            }
        }
    }
}

/// A transition that [`Zone::transitions_for_range`](crate::tzif::Zone::transitions_for_range)
/// generates from the zone's rule (one after the last stored transition)
/// carries the type that [`Zone::lookup`](crate::tzif::Zone::lookup) reports
/// at its instant, when the zone has stored transitions in strictly
/// increasing order and, for each year of the range, the rule's two
/// transitions differ and fall within that year.
pub proof fn law_generated_transition_matches_lookup(z: ZoneModel, start: int, end: int, i: int)
    requires
        z.wf(),
        strictly_sorted_times(z),
        z.transitions.len() > 0,
        z.generates(),
        forall|y: int|
            year_of_unix(start) <= y <= year_of_unix(end) ==> #[trigger] year_contained(
                z.extend->Some_0,
                y,
            ),
        0 <= i < z.range(start, end).len(),
        z.range(start, end)[i].when > z.last_stored(),
    ensures
        z.lookup(z.range(start, end)[i].when) == z.range(start, end)[i].zone_type,
{
    let p = z.extend->Some_0;
    let last = z.last_stored();
    lemma_stored_items(z, start, end, 0);
    lemma_gen_types(p, year_of_unix(start), year_of_unix(end), start, end, last);
    let a = stored_items(z, start, end, 0);
    let b = gen_items(p, year_of_unix(start), year_of_unix(end), start, end, last);
    assert(z.range(start, end) == a + b);
    let item = z.range(start, end)[i];
    if i < a.len() {
        assert(item == a[i]);
        assert(a[i].when <= last);
    } else {
        assert(item == b[i - a.len()]);
    }
    assert(sorted_times(z.transitions));
    law_lookup_after_last_transition(z, item.when);
}

/// The number of stored transitions of `z` from index `idx` on with
/// `start <= when < end`.
pub open spec fn stored_in_range_count(z: ZoneModel, start: int, end: int, idx: int) -> int
    decreases z.transitions.len() - idx,
{
    if idx < 0 || idx >= z.transitions.len() {
        0
    } else {
        (if start <= z.transitions[idx].when < end {
            1int
        } else {
            0int
        }) + stored_in_range_count(z, start, end, idx + 1)
    }
}

/// Two transitions for each year of `year..=end_year`.
pub open spec fn two_per_year(year: int, end_year: int) -> int {
    if end_year < year {
        0
    } else {
        2 * (end_year - year + 1)
    }
}

proof fn lemma_stored_count(z: ZoneModel, start: int, end: int, idx: int)
    ensures
        stored_items(z, start, end, idx).len() <= stored_in_range_count(z, start, end, idx),
    decreases z.transitions.len() - idx,
{
    if 0 <= idx < z.transitions.len() {
        lemma_stored_count(z, start, end, idx + 1);
    }
}

proof fn lemma_gen_count(p: PosixTzModel, year: int, end_year: int, start: int, end: int, last: int)
    ensures
        gen_items(p, year, end_year, start, end, last).len() <= two_per_year(year, end_year),
    decreases end_year + 1 - year,
{
    if year <= end_year {
        lemma_gen_count(p, year + 1, end_year, start, end, last);
        assert(year_items(p, year, start, end, last).len() <= 2);
    }
}

/// [`Zone::transitions_for_range`](crate::tzif::Zone::transitions_for_range)
/// yields at most the stored transitions that lie in the range, plus two
/// for each year from `start`'s to `end`'s when the zone's rule has DST.
pub proof fn law_range_count_bound(z: ZoneModel, start: int, end: int)
    ensures
        z.range(start, end).len() <= stored_in_range_count(z, start, end, 0) + (if z.generates() {
            two_per_year(year_of_unix(start), year_of_unix(end))
        } else {
            0
        }),
{
    lemma_stored_count(z, start, end, 0);
    if z.generates() {
        lemma_gen_count(
            z.extend->Some_0,
            year_of_unix(start),
            year_of_unix(end),
            start,
            end,
            z.last_stored(),
        );
    }
}

proof fn lemma_contains_left(a: Seq<RangeTransitionModel>, b: Seq<RangeTransitionModel>, x: RangeTransitionModel)
    requires
        a.contains(x),
    ensures
        (a + b).contains(x),
{
    let i = choose|i: int| 0 <= i < a.len() && a[i] == x;
    assert((a + b)[i] == x);
}

proof fn lemma_contains_right(a: Seq<RangeTransitionModel>, b: Seq<RangeTransitionModel>, x: RangeTransitionModel)
    requires
        b.contains(x),
    ensures
        (a + b).contains(x),
{
    let i = choose|i: int| 0 <= i < b.len() && b[i] == x;
    assert((a + b)[a.len() + i] == x);
}

/// A transition of year `y`'s items is among the generated items of any
/// span of years that holds `y`.
proof fn lemma_gen_contains(
    p: PosixTzModel,
    year: int,
    end_year: int,
    y: int,
    start: int,
    end: int,
    last: int,
    x: RangeTransitionModel,
)
    requires
        year <= y <= end_year,
        year_items(p, y, start, end, last).contains(x),
    ensures
        gen_items(p, year, end_year, start, end, last).contains(x),
    decreases end_year + 1 - year,
{
    let a = year_items(p, year, start, end, last);
    let b = gen_items(p, year + 1, end_year, start, end, last);
    assert(gen_items(p, year, end_year, start, end, last) == a + b);
    if y == year {
        lemma_contains_left(a, b, x);
    } else {
        lemma_gen_contains(p, year + 1, end_year, y, start, end, last, x);
        lemma_contains_right(a, b, x);
    }
}

/// A stored transition from index `idx` on that lies in the range is among
/// the stored items, when the stored times are in order.
proof fn lemma_stored_contains(z: ZoneModel, start: int, end: int, idx: int, k: int)
    requires
        sorted_times(z.transitions),
        0 <= idx <= k < z.transitions.len(),
        start <= z.transitions[k].when < end,
    ensures
        stored_items(z, start, end, idx).contains(
            RangeTransitionModel {
                when: z.transitions[k].when as int,
                zone_type: z.types[z.transitions[k].type_idx as int],
            },
        ),
    decreases k - idx,
{
    let x = RangeTransitionModel {
        when: z.transitions[k].when as int,
        zone_type: z.types[z.transitions[k].type_idx as int],
    };
    let t = z.transitions[idx];
    assert(t.when <= z.transitions[k].when);
    let rest = stored_items(z, start, end, idx + 1);
    if idx == k {
        assert(stored_items(z, start, end, idx) == seq![x] + rest);
        assert((seq![x] + rest)[0] == x);
    } else {
        lemma_stored_contains(z, start, end, idx + 1, k);
        if t.when >= start {
            let head = seq![RangeTransitionModel { when: t.when as int, zone_type: z.types[t.type_idx as int] }];
            assert(stored_items(z, start, end, idx) == head + rest);
            lemma_contains_right(head, rest, x);
        }
    }
}

/// The DST transition of rule `p` of year `y` that the range holds when it
/// falls in `[start, end)` after `last`: the start with the rule's DST type,
/// the end with its standard type.
pub open spec fn rule_transitions_present(
    r: Seq<RangeTransitionModel>,
    p: PosixTzModel,
    y: int,
    start: int,
    end: int,
    last: int,
) -> bool {
    let s = p.transitions_of_year(y)->Some_0.0;
    let e = p.transitions_of_year(y)->Some_0.1;
    &&& start <= s < end && s > last ==> r.contains(
        RangeTransitionModel {
            when: s,
            zone_type: ZoneTypeModel { abbrev: p.dst_abbrev, offset: p.dst_offset, is_dst: true },
        },
    )
    &&& start <= e < end && e > last ==> r.contains(
        RangeTransitionModel {
            when: e,
            zone_type: ZoneTypeModel { abbrev: p.std_abbrev, offset: p.std_offset, is_dst: false },
        },
    )
}

/// Nothing that belongs in a range is missing from it: with stored times in
/// order, every stored transition in `[start, end)` is there with the type
/// it names; and when the zone's rule has DST, for every year from
/// `start`'s to `end`'s, the rule's DST start of that year is there with the
/// rule's DST type, and its DST end with the standard type, each when it
/// lies in `[start, end)` after the last stored transition.
pub proof fn law_range_complete(z: ZoneModel, start: int, end: int)
    requires
        sorted_times(z.transitions),
    ensures
        forall|k: int|
            0 <= k < z.transitions.len() && start <= #[trigger] z.transitions[k].when < end
                ==> z.range(start, end).contains(
                RangeTransitionModel {
                    when: z.transitions[k].when as int,
                    zone_type: z.types[z.transitions[k].type_idx as int],
                },
            ),
        z.generates() ==> forall|y: int|
            year_of_unix(start) <= y <= year_of_unix(end) ==> #[trigger] rule_transitions_present(
                z.range(start, end),
                z.extend->Some_0,
                y,
                start,
                end,
                z.last_stored(),
            ),
{
    let a = stored_items(z, start, end, 0);
    let g = if z.generates() {
        gen_items(
            z.extend->Some_0,
            year_of_unix(start),
            year_of_unix(end),
            start,
            end,
            z.last_stored(),
        )
    } else {
        Seq::empty()
    };
    assert(z.range(start, end) == a + g);
    assert forall|k: int|
        0 <= k < z.transitions.len() && start <= #[trigger] z.transitions[k].when < end
            implies z.range(start, end).contains(
            RangeTransitionModel {
                when: z.transitions[k].when as int,
                zone_type: z.types[z.transitions[k].type_idx as int],
            },
        ) by {
        lemma_stored_contains(z, start, end, 0, k);
        lemma_contains_left(
            a,
            g,
            RangeTransitionModel {
                when: z.transitions[k].when as int,
                zone_type: z.types[z.transitions[k].type_idx as int],
            },
        );
    }
    if z.generates() {
        let p = z.extend->Some_0;
        let last = z.last_stored();
        assert forall|y: int| year_of_unix(start) <= y <= year_of_unix(end) implies #[trigger]
            rule_transitions_present(z.range(start, end), p, y, start, end, last) by {
            let s = p.transitions_of_year(y)->Some_0.0;
            let e = p.transitions_of_year(y)->Some_0.1;
            let yi = year_items(p, y, start, end, last);
            let xs = RangeTransitionModel {
                when: s,
                zone_type: ZoneTypeModel { abbrev: p.dst_abbrev, offset: p.dst_offset, is_dst: true },
            };
            let xe = RangeTransitionModel {
                when: e,
                zone_type: ZoneTypeModel {
                    abbrev: p.std_abbrev,
                    offset: p.std_offset,
                    is_dst: false,
                },
            };
            let si = in_range(s, start, end, last);
            let ei = in_range(e, start, end, last);
            assert(p.transitions_of_year(y) is Some);
            if si {
                if ei && s > e {
                    assert(yi == seq![xe] + seq![xs]);
                    assert(yi[1] == xs);
                } else if ei {
                    assert(yi == seq![xs] + seq![xe]);
                    assert(yi[0] == xs);
                } else {
                    assert(yi == seq![xs] + Seq::<RangeTransitionModel>::empty());
                    assert(yi[0] == xs);
                }
                lemma_gen_contains(p, year_of_unix(start), year_of_unix(end), y, start, end, last, xs);
                lemma_contains_right(a, g, xs);
            }
            if ei {
                if si && s > e {
                    assert(yi == seq![xe] + seq![xs]);
                    assert(yi[0] == xe);
                } else if si {
                    assert(yi == seq![xs] + seq![xe]);
                    assert(yi[1] == xe);
                } else {
                    assert(yi == Seq::<RangeTransitionModel>::empty() + seq![xe]);
                    assert(yi[0] == xe);
                }
                lemma_gen_contains(p, year_of_unix(start), year_of_unix(end), y, start, end, last, xe);
                lemma_contains_right(a, g, xe);
            }
        }
    }
}

} // verus!

//! Rust source for a static table of pre-parsed zones: per zone, arrays of
//! its types and transitions, then one sorted `ENTRIES` table that refers
//! to them, so that a build can embed the zones with no parsing at run time.

use vstd::prelude::*;
use vstd::string::*;

use crate::posix::{
    dec_digits, fmt_int, parse_posix_tz, push_dec, push_int, spec_parse_posix_tz, PosixTz,
    PosixTzModel, RuleKind, TransitionRule,
};
use crate::tzif::{opt_rule_view, Transition, Zone, ZoneModel, ZoneTypeModel};

verus! {

// ---------------------------------------------------------------------------
// The text
// ---------------------------------------------------------------------------

/// std's `Debug` text of a string: the string in double quotes, with quotes,
/// backslashes and characters that are not printable escaped.
pub uninterp spec fn str_debug(s: Seq<char>) -> Seq<char>;

/// A `bool` as `{}` prints it.
pub open spec fn bool_text(b: bool) -> Seq<char> {
    if b {
        "true"@
    } else {
        "false"@
    }
}

/// The name of a rule kind's variant.
pub open spec fn rule_kind_text(k: RuleKind) -> Seq<char> {
    match k {
        RuleKind::Julian => "Julian"@,
        RuleKind::DayOfYear => "DayOfYear"@,
        RuleKind::MonthWeekDay => "MonthWeekDay"@,
    }
}

/// A transition rule as a Rust expression.
pub open spec fn rule_text(r: TransitionRule) -> Seq<char> {
    "TransitionRule { kind: RuleKind::"@ + rule_kind_text(r.kind) + ", day: "@ + fmt_int(
        r.day as int,
    ) + ", week: "@ + fmt_int(r.week as int) + ", mon: "@ + fmt_int(r.mon as int) + ", time: "@
        + fmt_int(r.time as int) + " }"@
}

/// An optional POSIX rule as a Rust expression.
pub open spec fn extend_text(p: Option<PosixTzModel>) -> Seq<char> {
    match p {
        None => "None"@,
        Some(p) => "Some(PosixTz { std_abbrev: "@ + str_debug(p.std_abbrev) + ", std_offset: "@
            + fmt_int(p.std_offset) + ", dst_abbrev: "@ + str_debug(p.dst_abbrev)
            + ", dst_offset: "@ + fmt_int(p.dst_offset) + ", start: "@ + rule_text(p.start)
            + ", end: "@ + rule_text(p.end) + " })"@,
    }
}

/// The rule that a footer text parses to, if it parses.
pub open spec fn parsed_extend(raw: Seq<char>) -> Option<PosixTzModel> {
    match spec_parse_posix_tz(raw) {
        Ok(m) => Some(m),
        Err(_) => None,
    }
}

/// One element of a zone's type array.
pub open spec fn type_row(t: ZoneTypeModel) -> Seq<char> {
    "ZoneType { abbrev: "@ + str_debug(t.abbrev) + ", offset: "@ + fmt_int(t.offset)
        + ", is_dst: "@ + bool_text(t.is_dst) + " },"@
}

/// The elements of a type array.
pub open spec fn type_rows(ts: Seq<ZoneTypeModel>) -> Seq<char>
    decreases ts.len(),
{
    if ts.len() == 0 {
        Seq::empty()
    } else {
        type_rows(ts.drop_last()) + type_row(ts.last())
    }
}

/// One element of a zone's transition array.
pub open spec fn transition_row(t: Transition) -> Seq<char> {
    "Transition { when: "@ + fmt_int(t.when as int) + ", type_idx: "@ + fmt_int(
        t.type_idx as int,
    ) + ", is_std: "@ + bool_text(t.is_std) + ", is_ut: "@ + bool_text(t.is_ut) + " },"@
}

/// The elements of a transition array.
pub open spec fn transition_rows(ts: Seq<Transition>) -> Seq<char>
    decreases ts.len(),
{
    if ts.len() == 0 {
        Seq::empty()
    } else {
        transition_rows(ts.drop_last()) + transition_row(ts.last())
    }
}

/// The type array `TY_i` of zone `i`, or nothing when it has no types.
pub open spec fn types_array(i: int, ts: Seq<ZoneTypeModel>) -> Seq<char> {
    if ts.len() == 0 {
        Seq::empty()
    } else {
        "static TY_"@ + fmt_int(i) + ": [ZoneType; "@ + fmt_int(ts.len() as int) + "] = ["@
            + type_rows(ts) + "];\n"@
    }
}

/// The transition array `TR_i` of zone `i`, or nothing when it has none.
pub open spec fn transitions_array(i: int, ts: Seq<Transition>) -> Seq<char> {
    if ts.len() == 0 {
        Seq::empty()
    } else {
        "static TR_"@ + fmt_int(i) + ": [Transition; "@ + fmt_int(ts.len() as int) + "] = ["@
            + transition_rows(ts) + "];\n"@
    }
}

/// The arrays of all the zones, zone by zone.
pub open spec fn arrays(zs: Seq<ZoneModel>) -> Seq<char>
    decreases zs.len(),
{
    if zs.len() == 0 {
        Seq::empty()
    } else {
        let i = zs.len() - 1;
        arrays(zs.drop_last()) + types_array(i, zs[i].types) + transitions_array(
            i,
            zs[i].transitions,
        )
    }
}

/// What a zone's entry names as its types or transitions: its array, or
/// the empty slice.
pub open spec fn array_ref(prefix: Seq<char>, i: int, empty: bool) -> Seq<char> {
    if empty {
        "&[]"@
    } else {
        prefix + fmt_int(i)
    }
}

/// The start of the `ENTRIES` row of a zone: its name and version.
pub open spec fn entry_head(z: ZoneModel) -> Seq<char> {
    "    ("@ + str_debug(z.name) + ", Zone { name: "@ + str_debug(z.name) + ", version: "@
        + fmt_int(z.version as int)
}

/// The middle of the `ENTRIES` row of zone `i`: its arrays.
pub open spec fn entry_refs(i: int, z: ZoneModel) -> Seq<char> {
    ", types: "@ + array_ref("&TY_"@, i, z.types.len() == 0) + ", transitions: "@ + array_ref(
        "&TR_"@,
        i,
        z.transitions.len() == 0,
    ) + ", leap_seconds: &[], extend: "@
}

/// The end of the `ENTRIES` row of a zone: its rule and footer text.
pub open spec fn entry_tail(z: ZoneModel) -> Seq<char> {
    extend_text(parsed_extend(z.extend_raw)) + ", extend_raw: "@ + str_debug(z.extend_raw)
        + " }),\n"@
}

/// The `ENTRIES` row of zone `i`.
pub open spec fn entry_row(i: int, z: ZoneModel) -> Seq<char> {
    entry_head(z) + entry_refs(i, z) + entry_tail(z)
}

/// The rows of all the zones.
pub open spec fn entry_rows(zs: Seq<ZoneModel>) -> Seq<char>
    decreases zs.len(),
{
    if zs.len() == 0 {
        Seq::empty()
    } else {
        let i = zs.len() - 1;
        entry_rows(zs.drop_last()) + entry_row(i, zs[i])
    }
}

/// The opening lines of the table's source.
pub open spec fn table_header() -> Seq<char> {
    "// @generated by `cargo run -p xtask` from zoneinfo.zip \u{2014} do not edit.\nuse crate::{PosixTz, RuleKind, Transition, TransitionRule, Zone, ZoneType};\n\n"@
}

/// The whole source of the table for the zones `zs`, in their order.
pub open spec fn generated_table(zs: Seq<ZoneModel>) -> Seq<char> {
    table_header() + arrays(zs) + "\npub static ENTRIES: &[(&str, Zone)] = &[\n"@ + entry_rows(zs)
        + "];\n"@
}

/// The views of a list of zones.
pub open spec fn zones_view<'a>(zs: Seq<Zone<'a>>) -> Seq<ZoneModel> {
    zs.map_values(|z: Zone<'a>| z@)
}

/// An emitted transition rule ends with its day, week, month and time, each
/// written in the field of that name, in that order.
pub proof fn law_emitted_rule_fields(r: TransitionRule)
    ensures
        exists|pre: Seq<char>|
            rule_text(r) == pre + ", day: "@ + fmt_int(r.day as int) + ", week: "@ + fmt_int(
                r.week as int,
            ) + ", mon: "@ + fmt_int(r.mon as int) + ", time: "@ + fmt_int(r.time as int) + " }"@,
{
    let pre = "TransitionRule { kind: RuleKind::"@ + rule_kind_text(r.kind);
    assert(rule_text(r) == pre + ", day: "@ + fmt_int(r.day as int) + ", week: "@ + fmt_int(
        r.week as int,
    ) + ", mon: "@ + fmt_int(r.mon as int) + ", time: "@ + fmt_int(r.time as int) + " }"@);
}

/// An emitted POSIX rule ends with its DST offset, then its start rule in the
/// `start` field and its end rule in the `end` field: the rule it names
/// starts and ends DST where the given rule does.
pub proof fn law_emitted_extend_fields(p: PosixTzModel)
    ensures
        exists|pre: Seq<char>|
            extend_text(Some(p)) == pre + ", dst_offset: "@ + fmt_int(p.dst_offset) + ", start: "@
                + rule_text(p.start) + ", end: "@ + rule_text(p.end) + " })"@,
        exists|pre: Seq<char>|
            extend_text(Some(p)) == pre + ", std_offset: "@ + fmt_int(p.std_offset)
                + ", dst_abbrev: "@ + str_debug(p.dst_abbrev) + ", dst_offset: "@ + fmt_int(
                p.dst_offset,
            ) + ", start: "@ + rule_text(p.start) + ", end: "@ + rule_text(p.end) + " })"@,
{
    let pre0 = "Some(PosixTz { std_abbrev: "@ + str_debug(p.std_abbrev);
    let pre = pre0 + ", std_offset: "@ + fmt_int(p.std_offset) + ", dst_abbrev: "@ + str_debug(
        p.dst_abbrev,
    );
    assert(extend_text(Some(p)) =~= pre + ", dst_offset: "@ + fmt_int(p.dst_offset) + ", start: "@
        + rule_text(p.start) + ", end: "@ + rule_text(p.end) + " })"@);
    assert(extend_text(Some(p)) =~= pre0 + ", std_offset: "@ + fmt_int(p.std_offset)
        + ", dst_abbrev: "@ + str_debug(p.dst_abbrev) + ", dst_offset: "@ + fmt_int(p.dst_offset)
        + ", start: "@ + rule_text(p.start) + ", end: "@ + rule_text(p.end) + " })"@);
}

// ---------------------------------------------------------------------------
// Writing
// ---------------------------------------------------------------------------

/// std's `Debug` formatting of a string (`format!("{:?}")`). The contract
/// names the result `str_debug` and says nothing more of it.
#[verifier::external_body]
fn debug_quote(s: &str) -> (r: String)
    ensures
        r@ == str_debug(s@),
{
    format!("{:?}", s)
}

/// Appends `str_debug(t)` to `s`.
fn push_debug(s: &mut String, t: &str)
    ensures
        final(s)@ == old(s)@ + str_debug(t@),
{
    let q = debug_quote(t);
    s.append(q.as_str());
}

/// Appends a `bool` as `{}` prints it.
fn push_bool(s: &mut String, b: bool)
    ensures
        final(s)@ == old(s)@ + bool_text(b),
{
    if b {
        s.append("true");
    } else {
        s.append("false");
    }
}

/// Appends an `i64` as `{}` prints it.
fn push_i64(s: &mut String, v: i64)
    ensures
        final(s)@ == old(s)@ + fmt_int(v as int),
{
    if v < 0 {
        s.append("-");
        proof {
            reveal_strlit("-");
        }
        push_dec(s, (-(v as i128)) as u64);
        assert(fmt_int(v as int) =~= seq!['-'] + dec_digits((-v) as nat));
    } else {
        push_dec(s, v as u64);
    }
}

/// Appends a non-negative count as `{}` prints it.
fn push_count(s: &mut String, n: usize)
    ensures
        final(s)@ == old(s)@ + fmt_int(n as int),
{
    push_dec(s, n as u64);
}

/// The name of a rule kind's variant.
pub fn rule_kind(k: RuleKind) -> (r: &'static str)
    ensures
        r@ == rule_kind_text(k),
{
    match k {
        RuleKind::Julian => "Julian",
        RuleKind::DayOfYear => "DayOfYear",
        RuleKind::MonthWeekDay => "MonthWeekDay",
    }
}

/// A transition rule as a Rust expression.
pub fn emit_rule(r: TransitionRule) -> (out: String)
    ensures
        out@ == rule_text(r),
{
    let mut s = String::new();
    s.append("TransitionRule { kind: RuleKind::");
    s.append(rule_kind(r.kind));
    s.append(", day: ");
    push_int(&mut s, r.day);
    s.append(", week: ");
    push_int(&mut s, r.week);
    s.append(", mon: ");
    push_int(&mut s, r.mon);
    s.append(", time: ");
    push_int(&mut s, r.time);
    s.append(" }");
    assert(s@ =~= rule_text(r));
    s
}

/// An optional POSIX rule as a Rust expression.
pub fn emit_extend(p: &Option<PosixTz<'_>>) -> (out: String)
    ensures
        out@ == extend_text(opt_rule_view(*p)),
{
    match p {
        Some(p) => {
            let mut s = String::new();
            s.append("Some(PosixTz { std_abbrev: ");
            push_debug(&mut s, p.std_abbrev);
            s.append(", std_offset: ");
            push_int(&mut s, p.std_offset);
            s.append(", dst_abbrev: ");
            push_debug(&mut s, p.dst_abbrev);
            s.append(", dst_offset: ");
            push_int(&mut s, p.dst_offset);
            s.append(", start: ");
            let start = emit_rule(p.start);
            s.append(start.as_str());
            s.append(", end: ");
            let end = emit_rule(p.end);
            s.append(end.as_str());
            s.append(" })");
            assert(s@ =~= extend_text(opt_rule_view(Some(*p))));
            s
        },
        None => String::from_str("None"),
    }
}

/// Appends the type array of zone `i`.
fn push_types_array(s: &mut String, i: usize, z: &Zone<'_>)
    ensures
        final(s)@ == old(s)@ + types_array(i as int, z@.types),
{
    let ts = z.types();
    let ghost tv = z@.types;
    if ts.len() == 0 {
        assert(old(s)@ + types_array(i as int, tv) =~= old(s)@);
        return;
    }
    let ghost start = s@;
    s.append("static TY_");
    push_count(s, i);
    s.append(": [ZoneType; ");
    push_count(s, ts.len());
    s.append("] = [");
    let ghost mid = s@;
    let mut k: usize = 0;
    while k < ts.len()
        invariant
            k <= ts@.len(),
            ts@.len() == tv.len(),
            forall|j: int| 0 <= j < ts@.len() ==> (#[trigger] ts@[j])@ == tv[j],
            s@ == mid + type_rows(tv.subrange(0, k as int)),
        decreases ts.len() - k,
    {
        let t = ts[k];
        let ghost before = s@;
        s.append("ZoneType { abbrev: ");
        push_debug(s, t.abbrev);
        s.append(", offset: ");
        push_int(s, t.offset);
        s.append(", is_dst: ");
        push_bool(s, t.is_dst);
        s.append(" },");
        proof {
            let sub = tv.subrange(0, k + 1);
            assert(sub.drop_last() =~= tv.subrange(0, k as int));
            assert(sub.last() == tv[k as int]);
            assert(s@ =~= before + type_row(tv[k as int]));
        }
        k = k + 1;
    }
    s.append("];\n");
    proof {
        assert(tv.subrange(0, tv.len() as int) =~= tv);
        assert(s@ =~= start + types_array(i as int, tv));
    }
}

/// Appends the transition array of zone `i`.
fn push_transitions_array(s: &mut String, i: usize, z: &Zone<'_>)
    ensures
        final(s)@ == old(s)@ + transitions_array(i as int, z@.transitions),
{
    let ts = z.transitions();
    let ghost tv = z@.transitions;
    if ts.len() == 0 {
        assert(old(s)@ + transitions_array(i as int, tv) =~= old(s)@);
        return;
    }
    let ghost start = s@;
    s.append("static TR_");
    push_count(s, i);
    s.append(": [Transition; ");
    push_count(s, ts.len());
    s.append("] = [");
    let ghost mid = s@;
    let mut k: usize = 0;
    while k < ts.len()
        invariant
            k <= ts@.len(),
            ts@ == tv,
            s@ == mid + transition_rows(tv.subrange(0, k as int)),
        decreases ts.len() - k,
    {
        let t = ts[k];
        let ghost before = s@;
        s.append("Transition { when: ");
        push_i64(s, t.when);
        s.append(", type_idx: ");
        push_count(s, t.type_idx);
        s.append(", is_std: ");
        push_bool(s, t.is_std);
        s.append(", is_ut: ");
        push_bool(s, t.is_ut);
        s.append(" },");
        proof {
            let sub = tv.subrange(0, k + 1);
            assert(sub.drop_last() =~= tv.subrange(0, k as int));
            assert(sub.last() == tv[k as int]);
            assert(s@ =~= before + transition_row(tv[k as int]));
        }
        k = k + 1;
    }
    s.append("];\n");
    proof {
        assert(tv.subrange(0, tv.len() as int) =~= tv);
        assert(s@ =~= start + transitions_array(i as int, tv));
    }
}

/// Appends what an entry names as an array: `&[]` when `empty`, else the
/// array `prefix` followed by `i`.
fn push_array_ref(s: &mut String, prefix: &str, i: usize, empty: bool)
    ensures
        final(s)@ == old(s)@ + array_ref(prefix@, i as int, empty),
{
    if empty {
        s.append("&[]");
    } else {
        s.append(prefix);
        push_count(s, i);
        assert(s@ =~= old(s)@ + array_ref(prefix@, i as int, empty));
    }
}

/// Appends the rule that the footer text `raw` parses to, as a Rust expression.
fn push_extend(s: &mut String, raw: &str)
    ensures
        final(s)@ == old(s)@ + extend_text(parsed_extend(raw@)),
{
    let extend = match parse_posix_tz(raw) {
        Ok(p) => Some(p),
        Err(_) => None,
    };
    assert(opt_rule_view(extend) == parsed_extend(raw@));
    let text = emit_extend(&extend);
    s.append(text.as_str());
}

/// Appends the start of a zone's `ENTRIES` row.
fn push_entry_head(s: &mut String, z: &Zone<'_>)
    ensures
        final(s)@ == old(s)@ + entry_head(z@),
{
    s.append("    (");
    push_debug(s, z.name());
    s.append(", Zone { name: ");
    push_debug(s, z.name());
    s.append(", version: ");
    push_count(s, z.version() as usize);
    assert(s@ =~= old(s)@ + entry_head(z@));
}

/// Appends the middle of the `ENTRIES` row of zone `i`.
fn push_entry_refs(s: &mut String, i: usize, z: &Zone<'_>)
    ensures
        final(s)@ == old(s)@ + entry_refs(i as int, z@),
{
    s.append(", types: ");
    push_array_ref(s, "&TY_", i, z.types().len() == 0);
    s.append(", transitions: ");
    push_array_ref(s, "&TR_", i, z.transitions().len() == 0);
    s.append(", leap_seconds: &[], extend: ");
    assert(s@ =~= old(s)@ + entry_refs(i as int, z@));
}

/// Appends the end of a zone's `ENTRIES` row.
fn push_entry_tail(s: &mut String, z: &Zone<'_>)
    ensures
        final(s)@ == old(s)@ + entry_tail(z@),
{
    push_extend(s, z.extend_raw());
    s.append(", extend_raw: ");
    push_debug(s, z.extend_raw());
    s.append(" }),\n");
    assert(s@ =~= old(s)@ + entry_tail(z@));
}

/// Appends the `ENTRIES` row of zone `i`.
fn push_entry_row(s: &mut String, i: usize, z: &Zone<'_>)
    ensures
        final(s)@ == old(s)@ + entry_row(i as int, z@),
{
    push_entry_head(s, z);
    push_entry_refs(s, i, z);
    push_entry_tail(s, z);
    assert(s@ =~= old(s)@ + entry_row(i as int, z@));
}

/// Writes the Rust source of a static table of `zones`, in the order given:
/// per zone, a `TY_i` array of its types and a `TR_i` array of its
/// transitions (each left out when empty), then the `ENTRIES` table of
/// `(name, Zone)` rows that refer to them.
pub fn generate(zones: &[Zone<'_>]) -> (r: String)
    ensures
        r@ == generated_table(zones_view(zones@)),
{
    let ghost zv = zones_view(zones@);
    let mut out = String::from_str(
        "// @generated by `cargo run -p xtask` from zoneinfo.zip \u{2014} do not edit.\nuse crate::{PosixTz, RuleKind, Transition, TransitionRule, Zone, ZoneType};\n\n",
    );
    proof {
        assert(out@ =~= table_header() + arrays(zv.subrange(0, 0)));
    }
    let mut i: usize = 0;
    while i < zones.len()
        invariant
            i <= zones@.len(),
            zv == zones_view(zones@),
            out@ == table_header() + arrays(zv.subrange(0, i as int)),
        decreases zones.len() - i,
    {
        let ghost before = out@;
        push_types_array(&mut out, i, &zones[i]);
        push_transitions_array(&mut out, i, &zones[i]);
        proof {
            let sub = zv.subrange(0, i + 1);
            assert(sub.drop_last() =~= zv.subrange(0, i as int));
            assert(sub[i as int] == zones@[i as int]@);
            assert(out@ =~= table_header() + arrays(sub));
        }
        i = i + 1;
    }
    out.append("\npub static ENTRIES: &[(&str, Zone)] = &[\n");
    let ghost mid = out@;
    proof {
        assert(out@ =~= mid + entry_rows(zv.subrange(0, 0)));
    }
    let mut j: usize = 0;
    while j < zones.len()
        invariant
            j <= zones@.len(),
            zv == zones_view(zones@),
            out@ == mid + entry_rows(zv.subrange(0, j as int)),
        decreases zones.len() - j,
    {
        let ghost before = out@;
        push_entry_row(&mut out, j, &zones[j]);
        proof {
            let sub = zv.subrange(0, j + 1);
            assert(sub.drop_last() =~= zv.subrange(0, j as int));
            assert(sub[j as int] == zones@[j as int]@);
            assert(out@ =~= mid + entry_rows(sub));
        }
        j = j + 1;
    }
    out.append("];\n");
    proof {
        assert(zv.subrange(0, zv.len() as int) =~= zv);
        assert(out@ =~= generated_table(zv));
    }
    out
}

} // verus!

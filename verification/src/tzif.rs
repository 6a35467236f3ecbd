//! TZif (RFC 8536) binary parser and the [`Zone`] type.
//!
//! Parsing validates the header and the block layout, then decodes the local
//! time types, transitions and leap-second records into the [`Zone`]. Names
//! and abbreviations borrow from the source bytes.

use vstd::prelude::*;
use vstd::utf8::{decode_utf8, valid_utf8};

use crate::calendar::{unix_in_domain, year_of, year_of_unix};
use crate::error::Error;
use crate::meta::{meta, meta_from, ZoneMeta};
use crate::posix::{parse_posix_tz, spec_parse_posix_tz, PosixTz, PosixTzModel};

verus! {

// ---------------------------------------------------------------------------
// Records
// ---------------------------------------------------------------------------

/// Describes a local time type (e.g. `EST`, `EDT`).
#[derive(Debug, Clone, Copy, PartialEq, Eq)]
pub struct ZoneType<'a> {
    /// Abbreviated name.
    pub abbrev: &'a str,
    /// Seconds east of UTC.
    pub offset: i32,
    /// True if this is a daylight-saving time type.
    pub is_dst: bool,
}

/// The mathematical content of a [`ZoneType`].
pub struct ZoneTypeModel {
    pub abbrev: Seq<char>,
    pub offset: int,
    pub is_dst: bool,
}

impl<'a> View for ZoneType<'a> {
    type V = ZoneTypeModel;

    open spec fn view(&self) -> ZoneTypeModel {
        ZoneTypeModel { abbrev: self.abbrev@, offset: self.offset as int, is_dst: self.is_dst }
    }
}

/// A moment when the timezone rule changes.
#[derive(Debug, Clone, Copy, PartialEq, Eq, Structural)]
pub struct Transition {
    /// Unix timestamp at which the transition takes effect.
    pub when: i64,
    /// Index into the zone's [`types`](Zone::types).
    pub type_idx: usize,
    /// True if the transition time is standard (not wall clock).
    pub is_std: bool,
    /// True if the transition time is UT (not local).
    pub is_ut: bool,
}

/// A leap-second record.
#[derive(Debug, Clone, Copy, PartialEq, Eq, Structural)]
pub struct LeapSecond {
    /// Unix timestamp of the leap second.
    pub when: i64,
    /// Cumulative correction in seconds.
    pub correction: i32,
}

/// A transition produced by [`Zone::transitions_for_range`].
///
/// Unlike [`Transition`], this carries the resolved [`ZoneType`] directly, since
/// transitions generated from the POSIX extend rule may name a type that does
/// not appear in the stored type table.
#[derive(Debug, Clone, Copy, PartialEq, Eq)]
pub struct RangeTransition<'a> {
    /// Unix timestamp at which the transition takes effect.
    pub when: i64,
    /// The zone type in effect after the transition.
    pub zone_type: ZoneType<'a>,
}

/// The mathematical content of a [`RangeTransition`].
pub struct RangeTransitionModel {
    pub when: int,
    pub zone_type: ZoneTypeModel,
}

impl<'a> View for RangeTransition<'a> {
    type V = RangeTransitionModel;

    open spec fn view(&self) -> RangeTransitionModel {
        RangeTransitionModel { when: self.when as int, zone_type: self.zone_type@ }
    }
}

/// The mathematical content of a [`Zone`].
pub struct ZoneModel {
    pub name: Seq<char>,
    pub version: u8,
    pub data: Seq<u8>,
    pub types: Seq<ZoneTypeModel>,
    pub transitions: Seq<Transition>,
    pub leap_seconds: Seq<LeapSecond>,
    pub extend_raw: Seq<char>,
    pub extend: Option<PosixTzModel>,
}

/// A parsed IANA timezone, exposing transitions, zone types, leap seconds, and
/// the POSIX TZ extend rule.
#[derive(Debug)]
pub struct Zone<'a> {
    name: &'a str,
    version: u8,
    data: &'a [u8],
    types: Vec<ZoneType<'a>>,
    transitions: Vec<Transition>,
    leap_seconds: Vec<LeapSecond>,
    extend_raw: &'a str,
    extend: Option<PosixTz<'a>>,
}

/// The view of an optional rule.
pub open spec fn opt_rule_view<'a>(p: Option<PosixTz<'a>>) -> Option<PosixTzModel> {
    match p {
        Some(q) => Some(q@),
        None => None,
    }
}

impl<'a> View for Zone<'a> {
    type V = ZoneModel;

    closed spec fn view(&self) -> ZoneModel {
        ZoneModel {
            name: self.name@,
            version: self.version,
            data: self.data@,
            types: self.types@.map_values(|t: ZoneType<'a>| t@),
            transitions: self.transitions@,
            leap_seconds: self.leap_seconds@,
            extend_raw: self.extend_raw@,
            extend: opt_rule_view(self.extend),
        }
    }
}

impl ZoneModel {
    /// Every transition names an existing type, there is at least one type,
    /// and the extend rule, if any, is well formed.
    pub open spec fn wf(self) -> bool {
        &&& self.types.len() >= 1
        &&& self.types.len() <= u32::MAX
        &&& forall|i: int|
            0 <= i < self.transitions.len() ==> (#[trigger] self.transitions[i]).type_idx
                < self.types.len()
        &&& self.extend matches Some(p) ==> p.wf()
    }
}

impl<'a> Zone<'a> {
    #[verifier::type_invariant]
    spec fn inv(self) -> bool {
        &&& self@.wf()
        &&& self.types@.len() == self@.types.len()
    }
}

// ---------------------------------------------------------------------------
// Byte-level decoding
// ---------------------------------------------------------------------------

/// Big-endian unsigned 32-bit value at `o`.
pub open spec fn be_u32_at(d: Seq<u8>, o: int) -> int {
    d[o] * 16777216 + d[o + 1] * 65536 + d[o + 2] * 256 + d[o + 3]
}

/// Big-endian two's-complement 32-bit value at `o`.
pub open spec fn be_i32_at(d: Seq<u8>, o: int) -> int {
    let u = be_u32_at(d, o);
    if u >= 2147483648 {
        u - 4294967296
    } else {
        u
    }
}

/// Big-endian two's-complement 64-bit value at `o`.
pub open spec fn be_i64_at(d: Seq<u8>, o: int) -> int {
    let u = be_u32_at(d, o) * 4294967296 + be_u32_at(d, o + 4);
    if u >= 9223372036854775808 {
        u - 18446744073709551616
    } else {
        u
    }
}

fn be_u32(b: &[u8], o: usize) -> (r: u32)
    requires
        o + 4 <= b@.len() <= usize::MAX,
    ensures
        r == be_u32_at(b@, o as int),
{
    (b[o] as u32) * 16777216 + (b[o + 1] as u32) * 65536 + (b[o + 2] as u32) * 256 + (b[o + 3] as u32)
}

fn be_i32(b: &[u8], o: usize) -> (r: i32)
    requires
        o + 4 <= b@.len() <= usize::MAX,
    ensures
        r == be_i32_at(b@, o as int),
{
    let u = be_u32(b, o);
    if u >= 2147483648 {
        (u - 2147483648) as i32 - 2147483647 - 1
    } else {
        u as i32
    }
}

fn be_i64(b: &[u8], o: usize) -> (r: i64)
    requires
        o + 8 <= b@.len() <= usize::MAX,
    ensures
        r == be_i64_at(b@, o as int),
{
    let hi = be_u32(b, o) as u64;
    let lo = be_u32(b, o + 4) as u64;
    let u = hi * 4294967296 + lo;
    if u >= 9223372036854775808 {
        (u - 9223372036854775808) as i64 - 9223372036854775807 - 1
    } else {
        u as i64
    }
}

/// Converts UTF-8 bytes to a string slice (std's `core::str::from_utf8`),
/// or `None` when the bytes are not valid UTF-8.
#[verifier::external_body]
pub(crate) fn str_from_utf8<'b>(bytes: &'b [u8]) -> (r: Option<&'b str>)
    ensures
        r is Some <==> valid_utf8(bytes@),
        r matches Some(s) ==> s@ == decode_utf8(bytes@),
{
    core::str::from_utf8(bytes).ok()
}

/// Index of the first `b` at or after `i`, if any.
pub open spec fn find_byte(s: Seq<u8>, i: int, b: u8) -> Option<int>
    decreases s.len() - i,
{
    if i < 0 || i >= s.len() {
        None
    } else if s[i] == b {
        Some(i)
    } else {
        find_byte(s, i + 1, b)
    }
}

/// The NUL-terminated string starting at `idx` within `block`, decoded as
/// UTF-8; empty when out of range or not valid UTF-8.
pub open spec fn nul_terminated_text(block: Seq<u8>, idx: int) -> Seq<char> {
    let s = if 0 <= idx <= block.len() {
        block.subrange(idx, block.len() as int)
    } else {
        Seq::empty()
    };
    let end = match find_byte(s, 0, 0) {
        Some(j) => j,
        None => s.len() as int,
    };
    let bytes = s.subrange(0, end);
    if valid_utf8(bytes) {
        decode_utf8(bytes)
    } else {
        Seq::empty()
    }
}

/// Extracts a NUL-terminated string starting at `idx` within `block`.
fn byte_string<'b>(block: &'b [u8], idx: usize) -> (r: &'b str)
    ensures
        r@ == nul_terminated_text(block@, idx as int),
{
    let s: &'b [u8] = if idx <= block.len() {
        &block[idx..block.len()]
    } else {
        &block[block.len()..block.len()]
    };
    assert(s@ =~= (if idx <= block@.len() {
        block@.subrange(idx as int, block@.len() as int)
    } else {
        Seq::<u8>::empty()
    }));
    let mut end: usize = 0;
    while end < s.len() && s[end] != 0
        invariant
            end <= s@.len(),
            find_byte(s@, 0, 0) == find_byte(s@, end as int, 0),
        decreases s.len() - end,
    {
        end = end + 1;
    }
    let bytes: &'b [u8] = &s[0..end];
    match str_from_utf8(bytes) {
        Some(t) => t,
        None => {
            proof {
                reveal_strlit("");
            }
            assert(""@ =~= Seq::<char>::empty());
            ""
        },
    }
}

// ---------------------------------------------------------------------------
// Layout
// ---------------------------------------------------------------------------

/// The six counts of a TZif header.
pub struct Counts {
    pub isut: int,
    pub isstd: int,
    pub leap: int,
    pub time: int,
    pub typ: int,
    pub chr: int,
}

/// The counts of the header whose count fields start at `base`.
pub open spec fn counts_at(d: Seq<u8>, base: int) -> Counts {
    Counts {
        isut: be_u32_at(d, base),
        isstd: be_u32_at(d, base + 4),
        leap: be_u32_at(d, base + 8),
        time: be_u32_at(d, base + 12),
        typ: be_u32_at(d, base + 16),
        chr: be_u32_at(d, base + 20),
    }
}

/// Size of a data block with the given counts and record sizes.
pub open spec fn block_size(c: Counts, time_size: int, leap_size: int) -> int {
    c.time * time_size + c.time + c.typ * 6 + c.chr + c.leap * leap_size + c.isstd + c.isut
}

/// The bytes `TZif` at `o`.
pub open spec fn has_magic(d: Seq<u8>, o: int) -> bool {
    d[o] == 84 && d[o + 1] == 90 && d[o + 2] == 105 && d[o + 3] == 102
}

/// The format version named by a header's version byte.
pub open spec fn version_of(b: u8) -> Option<u8> {
    if b == 0 {
        Some(1u8)
    } else if b == 50 {
        Some(2u8)
    } else if b == 51 {
        Some(3u8)
    } else if b == 52 {
        Some(4u8)
    } else {
        None
    }
}

/// Where the data block that a zone is read from lies, and how it is laid out.
pub struct Layout {
    pub version: u8,
    pub counts: Counts,
    pub time_size: int,
    pub leap_size: int,
    pub data_off: int,
}

impl Layout {
    pub open spec fn types_off(self) -> int {
        self.data_off + self.counts.time * self.time_size
    }

    pub open spec fn ttinfo_off(self) -> int {
        self.types_off() + self.counts.time
    }

    pub open spec fn abbrev_off(self) -> int {
        self.ttinfo_off() + self.counts.typ * 6
    }

    pub open spec fn leap_off(self) -> int {
        self.abbrev_off() + self.counts.chr
    }

    pub open spec fn isstd_off(self) -> int {
        self.leap_off() + self.counts.leap * self.leap_size
    }

    pub open spec fn isut_off(self) -> int {
        self.isstd_off() + self.counts.isstd
    }

    pub open spec fn end_off(self) -> int {
        self.isut_off() + self.counts.isut
    }
}

/// Validates the headers and locates the data block of TZif bytes `d`
/// (the version 2+ block when there is one).
pub open spec fn tzif_layout(d: Seq<u8>) -> Result<Layout, &'static str> {
    if d.len() < 44 {
        Err("file too short")
    } else if !has_magic(d, 0) {
        Err("invalid magic number")
    } else {
        match version_of(d[4]) {
            None => Err("unknown version byte"),
            Some(version) => {
                let c1 = counts_at(d, 20);
                if c1.typ == 0 {
                    Err("no time types")
                } else if d.len() < 44 + block_size(c1, 4, 8) {
                    Err("v1 data block truncated")
                } else {
                    let l: Result<Layout, &'static str> = if version >= 2 {
                        let h = 44 + block_size(c1, 4, 8);
                        if d.len() < h + 44 {
                            Err("v2 header truncated")
                        } else if !has_magic(d, h) {
                            Err("v2 magic mismatch")
                        } else {
                            let c2 = counts_at(d, h + 20);
                            if c2.typ == 0 {
                                Err("no time types in v2 block")
                            } else {
                                Ok(
                                    Layout {
                                        version,
                                        counts: c2,
                                        time_size: 8,
                                        leap_size: 12,
                                        data_off: h + 44,
                                    },
                                )
                            }
                        }
                    } else {
                        Ok(Layout { version, counts: c1, time_size: 4, leap_size: 8, data_off: 44 })
                    };
                    match l {
                        Err(e) => Err(e),
                        Ok(l) => if d.len() < l.end_off() {
                            Err("data block truncated")
                        } else {
                            Ok(l)
                        },
                    }
                }
            },
        }
    }
}

/// Every transition's type index names an existing type.
pub open spec fn type_indices_ok(d: Seq<u8>, l: Layout) -> bool {
    forall|i: int| 0 <= i < l.counts.time ==> #[trigger] d[l.types_off() + i] < l.counts.typ
}

/// The `i`-th local time type.
pub open spec fn tzif_type(d: Seq<u8>, l: Layout, i: int) -> ZoneTypeModel {
    let rec = l.ttinfo_off() + 6 * i;
    ZoneTypeModel {
        abbrev: nul_terminated_text(
            d.subrange(l.abbrev_off(), l.abbrev_off() + l.counts.chr),
            d[rec + 5] as int,
        ),
        offset: be_i32_at(d, rec),
        is_dst: d[rec + 4] != 0,
    }
}

/// A time of `time_size` bytes at `o`.
pub open spec fn time_value(d: Seq<u8>, o: int, time_size: int) -> int {
    if time_size == 8 {
        be_i64_at(d, o)
    } else {
        be_i32_at(d, o)
    }
}

/// The `i`-th transition record.
pub open spec fn tzif_transition(d: Seq<u8>, l: Layout, i: int) -> Transition {
    Transition {
        when: time_value(d, l.data_off + i * l.time_size, l.time_size) as i64,
        type_idx: d[l.types_off() + i] as usize,
        is_std: i < l.counts.isstd && d[l.isstd_off() + i] != 0,
        is_ut: i < l.counts.isut && d[l.isut_off() + i] != 0,
    }
}

/// The `i`-th leap-second record.
pub open spec fn tzif_leap_second(d: Seq<u8>, l: Layout, i: int) -> LeapSecond {
    let off = l.leap_off() + i * l.leap_size;
    LeapSecond {
        when: time_value(d, off, l.time_size) as i64,
        correction: be_i32_at(d, off + l.time_size) as i32,
    }
}

/// The POSIX TZ footer (`\n<rule>\n` after the data block of version 2+
/// files), decoded, if present and valid UTF-8.
pub open spec fn footer_text(d: Seq<u8>, l: Layout) -> Option<Seq<char>> {
    if l.version < 2 {
        None
    } else {
        let f = l.end_off();
        if d.len() - f > 1 && d[f] == 10 {
            match find_byte(d, f + 1, 10) {
                Some(j) => {
                    let b = d.subrange(f + 1, j);
                    if valid_utf8(b) {
                        Some(decode_utf8(b))
                    } else {
                        None
                    }
                },
                None => None,
            }
        } else {
            None
        }
    }
}

/// The parsed footer rule, when the footer is non-empty and parses.
pub open spec fn footer_rule(d: Seq<u8>, l: Layout) -> Option<PosixTzModel> {
    match footer_text(d, l) {
        Some(t) => if t.len() > 0 {
            match spec_parse_posix_tz(t) {
                Ok(m) => Some(m),
                Err(_) => None,
            }
        } else {
            None
        },
        None => None,
    }
}

/// What `parse(name, d)` yields.
pub open spec fn tzif_model(name: Seq<char>, d: Seq<u8>) -> Result<ZoneModel, &'static str> {
    match tzif_layout(d) {
        Err(e) => Err(e),
        Ok(l) => if !type_indices_ok(d, l) {
            Err("transition type index out of range")
        } else {
            Ok(
                ZoneModel {
                    name,
                    version: l.version,
                    data: d,
                    types: Seq::new(l.counts.typ as nat, |i: int| tzif_type(d, l, i)),
                    transitions: Seq::new(l.counts.time as nat, |i: int| tzif_transition(d, l, i)),
                    leap_seconds: Seq::new(l.counts.leap as nat, |i: int| tzif_leap_second(d, l, i)),
                    extend_raw: match footer_text(d, l) {
                        Some(t) => t,
                        None => Seq::empty(),
                    },
                    extend: footer_rule(d, l),
                },
            )
        },
    }
}

// ---------------------------------------------------------------------------
// Parsing
// ---------------------------------------------------------------------------

/// Header counts read from the bytes.
struct HeaderCounts {
    isut: u64,
    isstd: u64,
    leap: u64,
    time: u64,
    typ: u64,
    chr: u64,
}

impl HeaderCounts {
    spec fn model(self) -> Counts {
        Counts {
            isut: self.isut as int,
            isstd: self.isstd as int,
            leap: self.leap as int,
            time: self.time as int,
            typ: self.typ as int,
            chr: self.chr as int,
        }
    }

    spec fn bounded(self) -> bool {
        &&& self.isut <= u32::MAX
        &&& self.isstd <= u32::MAX
        &&& self.leap <= u32::MAX
        &&& self.time <= u32::MAX
        &&& self.typ <= u32::MAX
        &&& self.chr <= u32::MAX
    }
}

fn read_counts(data: &[u8], base: usize) -> (r: HeaderCounts)
    requires
        base + 24 <= data@.len() <= usize::MAX,
    ensures
        r.model() == counts_at(data@, base as int),
        r.bounded(),
{
    HeaderCounts {
        isut: be_u32(data, base) as u64,
        isstd: be_u32(data, base + 4) as u64,
        leap: be_u32(data, base + 8) as u64,
        time: be_u32(data, base + 12) as u64,
        typ: be_u32(data, base + 16) as u64,
        chr: be_u32(data, base + 20) as u64,
    }
}

fn block_len(c: &HeaderCounts, time_size: u64, leap_size: u64) -> (r: u64)
    requires
        c.bounded(),
        time_size <= 8,
        leap_size <= 12,
    ensures
        r == block_size(c.model(), time_size as int, leap_size as int),
        r <= 30 * (u32::MAX as int),
{
    assert(c.time * time_size <= 8 * (u32::MAX as int)) by (nonlinear_arith)
        requires
            c.time <= u32::MAX,
            time_size <= 8,
    ;
    assert(c.leap * leap_size <= 12 * (u32::MAX as int)) by (nonlinear_arith)
        requires
            c.leap <= u32::MAX,
            leap_size <= 12,
    ;
    c.time * time_size + c.time + c.typ * 6 + c.chr + c.leap * leap_size + c.isstd + c.isut
}

fn magic_at(data: &[u8], o: usize) -> (r: bool)
    requires
        o + 4 <= data@.len() <= usize::MAX,
    ensures
        r == has_magic(data@, o as int),
{
    data[o] == 84 && data[o + 1] == 90 && data[o + 2] == 105 && data[o + 3] == 102
}

fn time_at(data: &[u8], o: usize, time_size: usize) -> (r: i64)
    requires
        time_size == 4 || time_size == 8,
        o + time_size <= data@.len() <= usize::MAX,
    ensures
        r == time_value(data@, o as int, time_size as int),
{
    if time_size == 8 {
        be_i64(data, o)
    } else {
        be_i32(data, o) as i64
    }
}

/// A located data block: its layout, with the offsets of its parts.
struct BlockLayout {
    version: u8,
    counts: HeaderCounts,
    time_size: usize,
    leap_size: usize,
    data_off: usize,
    types_off: usize,
    ttinfo_off: usize,
    abbrev_off: usize,
    leap_off: usize,
    isstd_off: usize,
    isut_off: usize,
    end_off: usize,
}

impl BlockLayout {
    spec fn model(self) -> Layout {
        Layout {
            version: self.version,
            counts: self.counts.model(),
            time_size: self.time_size as int,
            leap_size: self.leap_size as int,
            data_off: self.data_off as int,
        }
    }

    /// The offsets are those of the model, the block fits in `len` bytes,
    /// and the record sizes are those of a version 1 or version 2+ block.
    spec fn fits(self, len: int) -> bool {
        let l = self.model();
        &&& self.counts.bounded()
        &&& self.version >= 1
        &&& (self.time_size == 4 && self.leap_size == 8) || (self.time_size == 8
            && self.leap_size == 12)
        &&& self.types_off == l.types_off()
        &&& self.ttinfo_off == l.ttinfo_off()
        &&& self.abbrev_off == l.abbrev_off()
        &&& self.leap_off == l.leap_off()
        &&& self.isstd_off == l.isstd_off()
        &&& self.isut_off == l.isut_off()
        &&& self.end_off == l.end_off()
        &&& self.data_off <= self.types_off <= self.ttinfo_off <= self.abbrev_off
            <= self.leap_off <= self.isstd_off <= self.isut_off <= self.end_off
        &&& self.end_off <= len
        &&& len <= usize::MAX
    }
}

/// Validates the headers and locates the data block.
fn read_layout(data: &[u8]) -> (r: Result<BlockLayout, &'static str>)
    requires
        data@.len() <= usize::MAX,
    ensures
        match r {
            Ok(b) => tzif_layout(data@) == Ok::<Layout, &'static str>(b.model()) && b.fits(
                data@.len() as int,
            ),
            Err(m) => tzif_layout(data@) == Err::<Layout, &'static str>(m),
        },
{
    let len = data.len();
    if len < 44 {
        return Err("file too short");
    }
    if !magic_at(data, 0) {
        return Err("invalid magic number");
    }
    let version: u8 = if data[4] == 0 {
        1
    } else if data[4] == 50 {
        2
    } else if data[4] == 51 {
        3
    } else if data[4] == 52 {
        4
    } else {
        return Err("unknown version byte");
    };
    let c1 = read_counts(data, 20);
    if c1.typ == 0 {
        return Err("no time types");
    }
    let v1 = block_len(&c1, 4, 8);
    if (len as u64) < 44 + v1 {
        return Err("v1 data block truncated");
    }
    let (c, time_size, leap_size, data_off): (HeaderCounts, usize, usize, usize) = if version
        >= 2 {
        let h = 44 + v1;
        if (len as u64) < h + 44 {
            return Err("v2 header truncated");
        }
        let h = h as usize;
        if !magic_at(data, h) {
            return Err("v2 magic mismatch");
        }
        let c2 = read_counts(data, h + 20);
        if c2.typ == 0 {
            return Err("no time types in v2 block");
        }
        (c2, 8, 12, h + 44)
    } else {
        (c1, 4, 8, 44)
    };
    let total = block_len(&c, time_size as u64, leap_size as u64);
    if (len as u64) < (data_off as u64) + total {
        return Err("data block truncated");
    }
    proof {
        assert(0 <= c.time * time_size) by (nonlinear_arith)
            requires
                c.time >= 0,
                time_size >= 0,
        ;
        assert(0 <= c.leap * leap_size) by (nonlinear_arith)
            requires
                c.leap >= 0,
                leap_size >= 0,
        ;
    }
    let types_off: usize = data_off + (c.time as usize) * time_size;
    let ttinfo_off: usize = types_off + c.time as usize;
    let abbrev_off: usize = ttinfo_off + (c.typ as usize) * 6;
    let leap_off: usize = abbrev_off + c.chr as usize;
    let isstd_off: usize = leap_off + (c.leap as usize) * leap_size;
    let isut_off: usize = isstd_off + c.isstd as usize;
    let end_off: usize = isut_off + c.isut as usize;
    Ok(
        BlockLayout {
            version,
            counts: c,
            time_size,
            leap_size,
            data_off,
            types_off,
            ttinfo_off,
            abbrev_off,
            leap_off,
            isstd_off,
            isut_off,
            end_off,
        },
    )
}

/// Checks that every transition names an existing type.
fn type_indices_valid(data: &[u8], b: &BlockLayout) -> (r: bool)
    requires
        b.fits(data@.len() as int),
    ensures
        r == type_indices_ok(data@, b.model()),
{
    let ghost l = b.model();
    let timecnt = b.counts.time as usize;
    let typecnt = b.counts.typ as usize;
    let mut i: usize = 0;
    while i < timecnt
        invariant
            b.fits(data@.len() as int),
            l == b.model(),
            i <= timecnt,
            timecnt == l.counts.time,
            typecnt == l.counts.typ,
            forall|j: int| 0 <= j < i ==> #[trigger] data@[l.types_off() + j] < l.counts.typ,
        decreases timecnt - i,
    {
        if data[b.types_off + i] as usize >= typecnt {
            assert(data@[l.types_off() + i as int] >= l.counts.typ);
            return false;
        }
        i = i + 1;
    }
    true
}

/// Decodes the local time types.
fn decode_types<'a>(data: &'a [u8], b: &BlockLayout) -> (r: Vec<ZoneType<'a>>)
    requires
        b.fits(data@.len() as int),
    ensures
        r@.len() == b.counts.typ,
        forall|j: int| 0 <= j < r@.len() ==> (#[trigger] r@[j])@ == tzif_type(data@, b.model(), j),
{
    let ghost l = b.model();
    let abbrev_block: &'a [u8] = &data[b.abbrev_off..b.leap_off];
    let typecnt = b.counts.typ as usize;
    let mut types: Vec<ZoneType<'a>> = Vec::new();
    let mut k: usize = 0;
    while k < typecnt
        invariant
            b.fits(data@.len() as int),
            l == b.model(),
            k <= typecnt,
            typecnt == l.counts.typ,
            abbrev_block@ == data@.subrange(l.abbrev_off(), l.abbrev_off() + l.counts.chr),
            types@.len() == k,
            forall|j: int| 0 <= j < k ==> (#[trigger] types@[j])@ == tzif_type(data@, l, j),
        decreases typecnt - k,
    {
        let rec = b.ttinfo_off + 6 * k;
        let t = ZoneType {
            offset: be_i32(data, rec),
            is_dst: data[rec + 4] != 0,
            abbrev: byte_string(abbrev_block, data[rec + 5] as usize),
        };
        types.push(t);
        k = k + 1;
    }
    types
}

/// Decodes the transition records.
fn decode_transitions(data: &[u8], b: &BlockLayout) -> (r: Vec<Transition>)
    requires
        b.fits(data@.len() as int),
    ensures
        r@ =~= Seq::new(b.counts.time as nat, |i: int| tzif_transition(data@, b.model(), i)),
{
    let ghost l = b.model();
    let timecnt = b.counts.time as usize;
    let isstdcnt = b.counts.isstd as usize;
    let isutcnt = b.counts.isut as usize;
    let time_size = b.time_size;
    let mut transitions: Vec<Transition> = Vec::new();
    let mut k: usize = 0;
    while k < timecnt
        invariant
            b.fits(data@.len() as int),
            l == b.model(),
            k <= timecnt,
            timecnt == l.counts.time,
            isstdcnt == l.counts.isstd,
            isutcnt == l.counts.isut,
            time_size == b.time_size,
            transitions@.len() == k,
            forall|j: int| 0 <= j < k ==> #[trigger] transitions@[j] == tzif_transition(data@, l, j),
        decreases timecnt - k,
    {
        proof {
            assert(k * time_size + time_size <= timecnt * time_size) by (nonlinear_arith)
                requires
                    k < timecnt,
                    time_size >= 0,
            ;
        }
        let t = Transition {
            when: time_at(data, b.data_off + k * time_size, time_size),
            type_idx: data[b.types_off + k] as usize,
            is_std: k < isstdcnt && data[b.isstd_off + k] != 0,
            is_ut: k < isutcnt && data[b.isut_off + k] != 0,
        };
        transitions.push(t);
        k = k + 1;
    }
    transitions
}

/// Decodes the leap-second records.
fn decode_leap_seconds(data: &[u8], b: &BlockLayout) -> (r: Vec<LeapSecond>)
    requires
        b.fits(data@.len() as int),
    ensures
        r@ =~= Seq::new(b.counts.leap as nat, |i: int| tzif_leap_second(data@, b.model(), i)),
{
    let ghost l = b.model();
    let leapcnt = b.counts.leap as usize;
    let time_size = b.time_size;
    let leap_size = b.leap_size;
    let mut leap_seconds: Vec<LeapSecond> = Vec::new();
    let mut k: usize = 0;
    while k < leapcnt
        invariant
            b.fits(data@.len() as int),
            l == b.model(),
            k <= leapcnt,
            leapcnt == l.counts.leap,
            time_size == b.time_size,
            leap_size == b.leap_size,
            leap_seconds@.len() == k,
            forall|j: int| 0 <= j < k ==> #[trigger] leap_seconds@[j] == tzif_leap_second(data@, l, j),
        decreases leapcnt - k,
    {
        proof {
            assert(k * leap_size + leap_size <= leapcnt * leap_size) by (nonlinear_arith)
                requires
                    k < leapcnt,
                    leap_size >= 0,
            ;
        }
        let off = b.leap_off + k * leap_size;
        let s = LeapSecond {
            when: time_at(data, off, time_size),
            correction: be_i32(data, off + time_size),
        };
        leap_seconds.push(s);
        k = k + 1;
    }
    leap_seconds
}

/// Reads the POSIX TZ footer (v2+ only): `"\n<rule>\n"`.
fn read_footer<'a>(data: &'a [u8], b: &BlockLayout) -> (r: (&'a str, Option<PosixTz<'a>>))
    requires
        b.fits(data@.len() as int),
    ensures
        r.0@ == (match footer_text(data@, b.model()) {
            Some(t) => t,
            None => Seq::empty(),
        }),
        opt_rule_view(r.1) == footer_rule(data@, b.model()),
        r.1 matches Some(p) ==> p@.wf(),
{
    proof {
        reveal_strlit("");
    }
    assert(""@ =~= Seq::<char>::empty());
    let len = data.len();
    let end_off = b.end_off;
    if b.version < 2 {
        return ("", None);
    }
    if !(len - end_off > 1 && data[end_off] == 10) {
        return ("", None);
    }
    let mut j: usize = end_off + 1;
    while j < len && data[j] != 10
        invariant
            end_off + 1 <= j <= len,
            len == data@.len(),
            find_byte(data@, end_off + 1, 10) == find_byte(data@, j as int, 10),
        decreases len - j,
    {
        j = j + 1;
    }
    if j >= len {
        return ("", None);
    }
    let bytes: &'a [u8] = &data[end_off + 1..j];
    match str_from_utf8(bytes) {
        Some(s) => {
            if s.is_empty() {
                (s, None)
            } else {
                match parse_posix_tz(s) {
                    Ok(p) => (s, Some(p)),
                    Err(_) => (s, None),
                }
            }
        },
        None => ("", None),
    }
}

/// Parses TZif-format binary data into a [`Zone`].
pub fn parse<'a>(name: &'a str, data: &'a [u8]) -> (r: Result<Zone<'a>, Error>)
    ensures
        match r {
            Ok(z) => tzif_model(name@, data@) == Ok::<ZoneModel, &'static str>(z@),
            Err(e) => exists|m: &'static str|
                tzif_model(name@, data@) == Err::<ZoneModel, &'static str>(m) && e
                    == Error::BadData(m),
        },
{
    let len = data.len();
    let b = match read_layout(data) {
        Ok(b) => b,
        Err(m) => return Err(Error::BadData(m)),
    };
    if !type_indices_valid(data, &b) {
        return Err(Error::BadData("transition type index out of range"));
    }
    let types = decode_types(data, &b);
    let transitions = decode_transitions(data, &b);
    let leap_seconds = decode_leap_seconds(data, &b);
    let (extend_raw, extend) = read_footer(data, &b);
    let ghost l = b.model();
    assert forall|i: int| 0 <= i < transitions@.len() implies (#[trigger] transitions@[i]).type_idx
        < types@.len() by {
        assert(data@[l.types_off() + i] < l.counts.typ);
    }
    let z = Zone {
        name,
        version: b.version,
        data,
        types,
        transitions,
        leap_seconds,
        extend_raw,
        extend,
    };
    assert(z@.types =~= Seq::new(l.counts.typ as nat, |i: int| tzif_type(data@, l, i)));
    Ok(z)
}

// ---------------------------------------------------------------------------
// Lookup
// ---------------------------------------------------------------------------

proof fn lemma_find_byte_at(s: Seq<u8>, i: int, j: int, b: u8)
    requires
        0 <= i <= j < s.len(),
        s[j] == b,
        forall|k: int| i <= k < j ==> s[k] != b,
    ensures
        find_byte(s, i, b) == Some(j),
    decreases j - i,
{
    if i < j {
        lemma_find_byte_at(s, i + 1, j, b);
    }
}

/// Every TZif file of version 2 or later (whatever its version byte, `2`,
/// `3` or `4`) whose data block is followed by a newline, a valid UTF-8
/// text and another newline, has that text as its footer and, where the
/// text is not empty and parses as a POSIX TZ rule, that rule as its
/// extend rule; where it is empty or does not parse there is none.
pub proof fn law_footer_of_every_later_version(name: Seq<char>, d: Seq<u8>, j: int)
    requires
        tzif_model(name, d) is Ok,
        tzif_layout(d)->Ok_0.version >= 2,
        ({
            let f = tzif_layout(d)->Ok_0.end_off();
            &&& f < j < d.len()
            &&& d[f] == 10
            &&& d[j] == 10
            &&& forall|k: int| f < k < j ==> d[k] != 10
            &&& valid_utf8(d.subrange(f + 1, j))
        }),
    ensures
        tzif_model(name, d)->Ok_0.extend_raw == decode_utf8(
            d.subrange(tzif_layout(d)->Ok_0.end_off() + 1, j),
        ),
        ({
            let text = decode_utf8(d.subrange(tzif_layout(d)->Ok_0.end_off() + 1, j));
            tzif_model(name, d)->Ok_0.extend == (if text.len() > 0
                && spec_parse_posix_tz(text) is Ok {
                Some(spec_parse_posix_tz(text)->Ok_0)
            } else {
                None
            })
        }),
{
    let l = tzif_layout(d)->Ok_0;
    let f = l.end_off();
    lemma_find_byte_at(d, f + 1, j, 10);
}

/// The binary search of `Zone::lookup` over `ts[lo..hi]`: the number of
/// leading transitions at or before `unix` when the times are sorted.
pub open spec fn search(ts: Seq<Transition>, unix: int, lo: int, hi: int) -> int
    decreases hi - lo,
{
    if lo >= hi {
        lo
    } else {
        let mid = lo + (hi - lo) / 2;
        if ts[mid].when <= unix {
            search(ts, unix, mid + 1, hi)
        } else {
            search(ts, unix, lo, mid)
        }
    }
}

/// Index of the first non-DST type at or after `i`, or 0 when there is none.
pub open spec fn first_std_index(types: Seq<ZoneTypeModel>, i: int) -> int
    decreases types.len() - i,
{
    if i < 0 || i >= types.len() {
        0
    } else if !types[i].is_dst {
        i
    } else {
        first_std_index(types, i + 1)
    }
}

/// The type a POSIX rule puts in effect at `unix`.
pub open spec fn rule_type(p: PosixTzModel, unix: int) -> ZoneTypeModel {
    if p.in_dst(unix) {
        ZoneTypeModel { abbrev: p.dst_abbrev, offset: p.dst_offset, is_dst: true }
    } else {
        ZoneTypeModel { abbrev: p.std_abbrev, offset: p.std_offset, is_dst: false }
    }
}

/// The DST type of a POSIX rule.
pub open spec fn rule_dst_type(p: PosixTzModel) -> ZoneTypeModel {
    ZoneTypeModel { abbrev: p.dst_abbrev, offset: p.dst_offset, is_dst: true }
}

/// The standard type of a POSIX rule.
pub open spec fn rule_std_type(p: PosixTzModel) -> ZoneTypeModel {
    ZoneTypeModel { abbrev: p.std_abbrev, offset: p.std_offset, is_dst: false }
}

/// The transition times are in non-decreasing order.
pub open spec fn sorted_times(ts: Seq<Transition>) -> bool {
    forall|i: int, j: int| 0 <= i <= j < ts.len() ==> ts[i].when <= ts[j].when
}

impl ZoneModel {
    /// The position found by the binary search for `unix`.
    pub open spec fn search_point(self, unix: int) -> int {
        search(self.transitions, unix, 0, self.transitions.len() as int)
    }

    /// `lookup(unix)` answers from the POSIX extend rule.
    pub open spec fn uses_rule_at(self, unix: int) -> bool {
        &&& self.transitions.len() > 0
        &&& self.search_point(unix) == self.transitions.len()
        &&& self.extend is Some
    }

    /// The zone type in effect at `unix`.
    pub open spec fn lookup(self, unix: int) -> ZoneTypeModel {
        let n = self.transitions.len() as int;
        if n == 0 {
            if self.types.len() > 0 {
                self.types[0]
            } else {
                ZoneTypeModel { abbrev: "UTC"@, offset: 0, is_dst: false }
            }
        } else {
            let lo = self.search_point(unix);
            if lo == 0 {
                self.types[first_std_index(self.types, 0)]
            } else if lo == n && self.extend is Some {
                rule_type(self.extend->Some_0, unix)
            } else {
                self.types[self.transitions[lo - 1].type_idx as int]
            }
        }
    }
}

/// On sorted times the binary search stops between the transitions at or
/// before `unix` and those after it.
pub proof fn lemma_search_sorted(ts: Seq<Transition>, unix: int, lo: int, hi: int)
    requires
        sorted_times(ts),
        0 <= lo <= hi <= ts.len(),
        forall|i: int| 0 <= i < lo ==> ts[i].when <= unix,
        forall|i: int| hi <= i < ts.len() ==> ts[i].when > unix,
    ensures
        lo <= search(ts, unix, lo, hi) <= hi,
        forall|i: int| 0 <= i < search(ts, unix, lo, hi) ==> ts[i].when <= unix,
        forall|i: int| search(ts, unix, lo, hi) <= i < ts.len() ==> ts[i].when > unix,
    decreases hi - lo,
{
    if lo < hi {
        let mid = lo + (hi - lo) / 2;
        if ts[mid].when <= unix {
            assert forall|i: int| 0 <= i < mid + 1 implies ts[i].when <= unix by {
                if i >= lo {
                    assert(ts[i].when <= ts[mid].when);
                }
            }
            lemma_search_sorted(ts, unix, mid + 1, hi);
        } else {
            assert forall|i: int| mid <= i < ts.len() implies ts[i].when > unix by {
                if i < hi {
                    assert(ts[mid].when <= ts[i].when);
                }
            }
            lemma_search_sorted(ts, unix, lo, mid);
        }
    }
}

/// With sorted transition times, `lookup` applies the latest transition at
/// or before the instant; the extend rule takes over only after the last
/// stored transition.
pub proof fn law_lookup_latest_transition(z: ZoneModel, unix: int, i: int)
    requires
        z.wf(),
        sorted_times(z.transitions),
        0 <= i < z.transitions.len(),
        z.transitions[i].when <= unix,
        i + 1 < z.transitions.len() ==> z.transitions[i + 1].when > unix,
        i + 1 == z.transitions.len() ==> z.extend is None,
    ensures
        z.lookup(unix) == z.types[z.transitions[i].type_idx as int],
{
    lemma_search_sorted(z.transitions, unix, 0, z.transitions.len() as int);
    let p = z.search_point(unix);
    if p <= i {
        assert(z.transitions[i].when > unix);
    }
    if p > i + 1 {
        assert(z.transitions[i + 1].when <= unix);
    }
}

/// With sorted transition times, an instant before every stored transition
/// gets the first non-DST type (the first type when all are DST).
pub proof fn law_lookup_before_first_transition(z: ZoneModel, unix: int)
    requires
        z.wf(),
        sorted_times(z.transitions),
        z.transitions.len() > 0,
        unix < z.transitions[0].when,
    ensures
        z.lookup(unix) == z.types[first_std_index(z.types, 0)],
{
    lemma_search_sorted(z.transitions, unix, 0, z.transitions.len() as int);
}

/// With sorted transition times, an instant at or after the last stored
/// transition is answered by the extend rule when there is one.
pub proof fn law_lookup_after_last_transition(z: ZoneModel, unix: int)
    requires
        z.wf(),
        sorted_times(z.transitions),
        z.transitions.len() > 0,
        z.transitions[z.transitions.len() - 1].when <= unix,
        z.extend is Some,
    ensures
        z.uses_rule_at(unix),
        z.lookup(unix) == rule_type(z.extend->Some_0, unix),
{
    lemma_search_sorted(z.transitions, unix, 0, z.transitions.len() as int);
    let n = z.transitions.len() as int;
    if z.search_point(unix) < n {
        assert(z.transitions[n - 1].when > unix);
    }
}

// ---------------------------------------------------------------------------
// Range of transitions
// ---------------------------------------------------------------------------

/// The range item of a stored transition.
pub open spec fn stored_item(z: ZoneModel, t: Transition) -> RangeTransitionModel {
    RangeTransitionModel { when: t.when as int, zone_type: z.types[t.type_idx as int] }
}

/// Stored transitions from index `idx` on with `start <= when`, up to the
/// first one at or after `end`.
pub open spec fn stored_items(z: ZoneModel, start: int, end: int, idx: int) -> Seq<
    RangeTransitionModel,
>
    decreases z.transitions.len() - idx,
{
    if idx < 0 || idx >= z.transitions.len() {
        Seq::empty()
    } else {
        let t = z.transitions[idx];
        if t.when >= end {
            Seq::empty()
        } else if t.when >= start {
            seq![stored_item(z, t)] + stored_items(z, start, end, idx + 1)
        } else {
            stored_items(z, start, end, idx + 1)
        }
    }
}

/// `start <= w < end` and `w` is after the last stored transition.
pub open spec fn in_range(w: int, start: int, end: int, last: int) -> bool {
    start <= w && w < end && w > last
}

/// The transitions of `year` generated by rule `p` that fall in range, in
/// chronological order.
pub open spec fn year_items(p: PosixTzModel, year: int, start: int, end: int, last: int) -> Seq<
    RangeTransitionModel,
> {
    match p.transitions_of_year(year) {
        None => Seq::empty(),
        Some((s, e)) => {
            let si = in_range(s, start, end, last);
            let ei = in_range(e, start, end, last);
            let a: Seq<RangeTransitionModel> = if si {
                seq![RangeTransitionModel { when: s, zone_type: rule_dst_type(p) }]
            } else {
                Seq::empty()
            };
            let b: Seq<RangeTransitionModel> = if ei {
                seq![RangeTransitionModel { when: e, zone_type: rule_std_type(p) }]
            } else {
                Seq::empty()
            };
            if si && ei && s > e {
                b + a
            } else {
                a + b
            }
        },
    }
}

/// The generated transitions of the years `year..=end_year`.
pub open spec fn gen_items(
    p: PosixTzModel,
    year: int,
    end_year: int,
    start: int,
    end: int,
    last: int,
) -> Seq<RangeTransitionModel>
    decreases end_year + 1 - year,
{
    if year > end_year {
        Seq::empty()
    } else {
        year_items(p, year, start, end, last) + gen_items(p, year + 1, end_year, start, end, last)
    }
}

impl ZoneModel {
    /// The extend rule defines DST, so transitions are generated from it.
    pub open spec fn generates(self) -> bool {
        self.extend matches Some(p) && p.has_dst()
    }

    /// Time of the last stored transition (`i64::MIN` when there is none).
    pub open spec fn last_stored(self) -> int {
        if self.transitions.len() > 0 {
            self.transitions[self.transitions.len() - 1].when as int
        } else {
            i64::MIN as int
        }
    }

    /// The transitions in `[start, end)`: stored ones, then those generated
    /// from the extend rule for the years from `start`'s to `end`'s.
    pub open spec fn range(self, start: int, end: int) -> Seq<RangeTransitionModel> {
        stored_items(self, start, end, 0) + if self.generates() {
            gen_items(
                self.extend->Some_0,
                year_of_unix(start),
                year_of_unix(end),
                start,
                end,
                self.last_stored(),
            )
        } else {
            Seq::empty()
        }
    }
}

/// Views of a sequence of range transitions.
pub open spec fn range_views<'a>(s: Seq<RangeTransition<'a>>) -> Seq<RangeTransitionModel> {
    s.map_values(|t: RangeTransition<'a>| t@)
}

/// Iterator returned by [`Zone::transitions_for_range`].
pub struct RangeIter<'z, 'a> {
    zone: &'z Zone<'a>,
    start_unix: i64,
    end_unix: i64,
    stored_idx: usize,
    stored_done: bool,
    last_stored: i64,
    generate: bool,
    year: i32,
    end_year: i32,
    pending: Vec<RangeTransition<'a>>,
    pending_i: usize,
}

impl<'z, 'a> RangeIter<'z, 'a> {
    /// The transitions still to be yielded.
    pub closed spec fn remaining(&self) -> Seq<RangeTransitionModel> {
        let z = self.zone@;
        (if !self.stored_done {
            stored_items(z, self.start_unix as int, self.end_unix as int, self.stored_idx as int)
        } else {
            Seq::empty()
        }) + (if self.generate {
            range_views(self.pending@.subrange(self.pending_i as int, self.pending@.len() as int))
                + gen_items(
                z.extend->Some_0,
                self.year as int,
                self.end_year as int,
                self.start_unix as int,
                self.end_unix as int,
                self.last_stored as int,
            )
        } else {
            Seq::empty()
        })
    }

    /// The iterator's state is consistent with its zone.
    pub closed spec fn wf(&self) -> bool {
        let z = self.zone@;
        &&& z.wf()
        &&& self.stored_idx <= z.transitions.len()
        &&& self.last_stored == z.last_stored()
        &&& self.generate == z.generates()
        &&& self.pending_i <= self.pending@.len()
        &&& self.generate ==> {
            &&& self.end_year < 9_000_000
            &&& -9_000_000 < self.year < 9_000_001
        }
    }

    fn in_range(&self, when: i64) -> (r: bool)
        ensures
            r == in_range(
                when as int,
                self.start_unix as int,
                self.end_unix as int,
                self.last_stored as int,
            ),
    {
        when >= self.start_unix && when < self.end_unix && when > self.last_stored
    }

    /// Yields the next transition in range.
    pub fn next(&mut self) -> (r: Option<RangeTransition<'a>>)
        requires
            old(self).wf(),
        ensures
            final(self).wf(),
            match r {
                Some(t) => old(self).remaining().len() > 0 && t@ == old(self).remaining()[0]
                    && final(self).remaining() == old(self).remaining().drop_first(),
                None => old(self).remaining().len() == 0 && final(self).remaining().len() == 0,
            },
    {
        proof {
            use_type_invariant(self.zone);
        }
        let ghost z = self.zone@;
        let ghost start = self.start_unix as int;
        let ghost end = self.end_unix as int;
        let ghost rest = self.remaining();
        // Phase 1: stored transitions in range.
        if !self.stored_done {
            let n = self.zone.transitions.len();
            let mut idx = self.stored_idx;
            let mut found = false;
            let mut ended = false;
            while idx < n && !found && !ended
                invariant
                    n == z.transitions.len(),
                    z == self.zone@,
                    z.wf(),
                    self.zone.types@.len() == z.types.len(),
                    self.stored_idx <= idx <= n,
                    start == self.start_unix,
                    end == self.end_unix,
                    !found && !ended ==> stored_items(z, start, end, self.stored_idx as int)
                        == stored_items(z, start, end, idx as int),
                    found ==> idx >= 1 && z.transitions[idx - 1].when < end && stored_items(
                        z,
                        start,
                        end,
                        self.stored_idx as int,
                    ) == seq![stored_item(z, z.transitions[idx - 1])] + stored_items(
                        z,
                        start,
                        end,
                        idx as int,
                    ),
                    ended ==> stored_items(z, start, end, self.stored_idx as int)
                        == Seq::<RangeTransitionModel>::empty(),
                decreases n - idx + (if !found && !ended {
                    1int
                } else {
                    0int
                }),
            {
                let t = self.zone.transitions[idx];
                if t.when >= self.end_unix {
                    ended = true;
                } else {
                    idx = idx + 1;
                    if t.when >= self.start_unix {
                        found = true;
                    }
                }
            }
            if found {
                let t = self.zone.transitions[idx - 1];
                let item = RangeTransition { when: t.when, zone_type: self.zone.types[t.type_idx] };
                self.stored_idx = idx;
                assert(item@ == stored_item(z, t));
                assert(self.remaining() =~= rest.drop_first());
                return Some(item);
            }
            self.stored_idx = idx;
            self.stored_done = true;
            assert(self.remaining() =~= rest);
        }
        // Phase 2: transitions generated from the POSIX extend rule.
        if !self.generate {
            assert(self.remaining() =~= Seq::<RangeTransitionModel>::empty());
            return None;
        }
        let ext = match self.zone.extend {
            Some(p) => p,
            None => {
                assert(false);
                return None;
            },
        };
        loop
            invariant
                self.wf(),
                self.generate,
                self.stored_done,
                z == self.zone@,
                ext@ == z.extend->Some_0,
                ext@.wf(),
                ext@.has_dst(),
                self.remaining() == rest,
                rest == old(self).remaining(),
                start == self.start_unix as int,
                end == self.end_unix as int,
            decreases self.end_year + 2 - self.year,
        {
            // Drain pending transitions buffered for the current year.
            if self.pending_i < self.pending.len() {
                let t = self.pending[self.pending_i];
                self.pending_i = self.pending_i + 1;
                assert(self.remaining() =~= rest.drop_first());
                return Some(t);
            }
            if self.year > self.end_year {
                assert(self.remaining() =~= Seq::<RangeTransitionModel>::empty());
                return None;
            }
            // Compute this year's transitions, filter to range, sort, buffer.
            let year = self.year;
            let ghost last = self.last_stored as int;
            let mut buf: Vec<RangeTransition<'a>> = Vec::new();
            match ext.transitions_for_year(year) {
                Some((dst_start, dst_end)) => {
                    let dst_type = ZoneType { abbrev: ext.dst_abbrev, offset: ext.dst_offset, is_dst: true };
                    let std_type = ZoneType { abbrev: ext.std_abbrev, offset: ext.std_offset, is_dst: false };
                    let a = RangeTransition { when: dst_start, zone_type: dst_type };
                    let b = RangeTransition { when: dst_end, zone_type: std_type };
                    assert(a@ == RangeTransitionModel { when: dst_start as int, zone_type: rule_dst_type(ext@) });
                    assert(b@ == RangeTransitionModel { when: dst_end as int, zone_type: rule_std_type(ext@) });
                    let si = self.in_range(dst_start);
                    let ei = self.in_range(dst_end);
                    if si && ei && dst_start > dst_end {
                        buf.push(b);
                        buf.push(a);
                        assert(range_views(buf@) =~= seq![b@, a@]);
                    } else {
                        if si {
                            buf.push(a);
                        }
                        if ei {
                            buf.push(b);
                        }
                        assert(range_views(buf@) =~= (if si { seq![a@] } else { Seq::empty() }) + (if ei { seq![b@] } else { Seq::empty() }));
                    }
                },
                None => {
                    assert(range_views(buf@) =~= Seq::<RangeTransitionModel>::empty());
                },
            }
            let ghost old_year = self.year;
            assert(range_views(buf@) =~= year_items(
                ext@,
                year as int,
                start,
                end,
                self.last_stored as int,
            ));
            self.pending = buf;
            self.pending_i = 0;
            self.year = year + 1;
            assert(self.remaining() =~= rest);
        }
    }

    /// Drains the iterator into a vector.
    pub fn collect(self) -> (r: Vec<RangeTransition<'a>>)
        requires
            self.wf(),
        ensures
            range_views(r@) == self.remaining(),
    {
        let mut it = self;
        let ghost all = it.remaining();
        let mut out: Vec<RangeTransition<'a>> = Vec::new();
        loop
            invariant
                it.wf(),
                all == self.remaining(),
                range_views(out@) + it.remaining() == all,
            decreases it.remaining().len(),
        {
            let ghost before_rem = it.remaining();
            match it.next() {
                Some(t) => {
                    let ghost before = range_views(out@);
                    out.push(t);
                    assert(range_views(out@) =~= before.push(t@));
                },
                None => {
                    assert(before_rem =~= Seq::<RangeTransitionModel>::empty());
                    assert(range_views(out@) =~= all);
                    return out;
                },
            }
        }
    }

    /// Drains the iterator, counting the transitions.
    pub fn count(self) -> (r: usize)
        requires
            self.wf(),
        ensures
            r == self.remaining().len(),
    {
        let v = self.collect();
        v.len()
    }
}

// ---------------------------------------------------------------------------
// Accessors
// ---------------------------------------------------------------------------

impl<'a> Zone<'a> {
    /// The IANA timezone name.
    pub fn name(&self) -> (r: &'a str)
        ensures
            r@ == self@.name,
    {
        self.name
    }

    /// Returns the metadata that the `zone1970.tab` text `table` gives this
    /// zone, or `None` if it has none.
    pub fn meta<'b>(&self, table: &'b str) -> (r: Option<ZoneMeta<'b>>)
        ensures
            match r {
                Some(m) => meta_from(table@, 0, self@.name) == Some(m@),
                None => meta_from(table@, 0, self@.name) is None,
            },
    {
        meta(table, self.name)
    }

    /// The TZif format version (1, 2, 3, or 4).
    pub fn version(&self) -> (r: u8)
        ensures
            r == self@.version,
    {
        self.version
    }

    /// The TZif bytes this zone was parsed from.
    pub fn raw_data(&self) -> (r: &'a [u8])
        ensures
            r@ == self@.data,
    {
        self.data
    }

    /// The parsed POSIX TZ rule for computing future transitions, if any.
    pub fn extend(&self) -> (r: Option<&PosixTz<'a>>)
        ensures
            match r {
                Some(p) => self@.extend == Some(p@),
                None => self@.extend is None,
            },
    {
        self.extend.as_ref()
    }

    /// The raw POSIX TZ footer string (empty if none).
    pub fn extend_raw(&self) -> (r: &'a str)
        ensures
            r@ == self@.extend_raw,
    {
        self.extend_raw
    }

    /// The number of local time types.
    pub fn type_count(&self) -> (r: usize)
        ensures
            r == self@.types.len(),
    {
        proof {
            use_type_invariant(self);
        }
        self.types.len()
    }

    /// Returns the `i`-th local time type.
    pub fn type_at(&self, i: usize) -> (r: ZoneType<'a>)
        requires
            i < self@.types.len(),
        ensures
            r@ == self@.types[i as int],
    {
        proof {
            use_type_invariant(self);
        }
        self.types[i]
    }

    /// The zone's local time types.
    pub fn types(&self) -> (r: &[ZoneType<'a>])
        ensures
            r@.len() == self@.types.len(),
            forall|i: int| 0 <= i < r@.len() ==> (#[trigger] r@[i])@ == self@.types[i],
    {
        proof {
            use_type_invariant(self);
        }
        self.types.as_slice()
    }

    /// The stored transition records.
    pub fn transitions(&self) -> (r: &[Transition])
        ensures
            r@ == self@.transitions,
    {
        self.transitions.as_slice()
    }

    /// The leap-second records.
    pub fn leap_seconds(&self) -> (r: &[LeapSecond])
        ensures
            r@ == self@.leap_seconds,
    {
        self.leap_seconds.as_slice()
    }

    /// Returns the zone type in effect at the given Unix timestamp.
    ///
    /// Searches stored transitions and falls back to the POSIX TZ rule for
    /// times after the last transition.
    pub fn lookup(&self, unix: i64) -> (r: ZoneType<'a>)
        requires
            self@.uses_rule_at(unix as int) && self@.extend->Some_0.has_dst() ==> unix_in_domain(
                unix as int,
            ),
        ensures
            r@ == self@.lookup(unix as int),
    {
        proof {
            use_type_invariant(self);
        }
        let n = self.transitions.len();
        if n == 0 {
            if self.types.len() > 0 {
                return self.types[0];
            }
            return ZoneType { abbrev: "UTC", offset: 0, is_dst: false };
        }
        // Binary search: lo = number of transitions whose time is <= unix.
        let mut lo: usize = 0;
        let mut hi: usize = n;
        while lo < hi
            invariant
                0 <= lo <= hi <= n,
                n == self@.transitions.len(),
                search(self@.transitions, unix as int, 0, n as int) == search(
                    self@.transitions,
                    unix as int,
                    lo as int,
                    hi as int,
                ),
            decreases hi - lo,
        {
            let mid = lo + (hi - lo) / 2;
            if self.transitions[mid].when <= unix {
                lo = mid + 1;
            } else {
                hi = mid;
            }
        }
        if lo == 0 {
            // Before the first transition: first non-DST type, else type 0.
            let mut i: usize = 0;
            while i < self.types.len()
                invariant
                    i <= self.types@.len(),
                    self.types@.len() == self@.types.len(),
                    n == self@.transitions.len(),
                    n > 0,
                    self@.search_point(unix as int) == 0,
                    first_std_index(self@.types, 0) == first_std_index(self@.types, i as int),
                decreases self.types.len() - i,
            {
                assert(self@.types[i as int] == self.types@[i as int]@);
                if !self.types[i].is_dst {
                    return self.types[i];
                }
                i = i + 1;
            }
            return self.types[0];
        }
        if lo == n {
            match &self.extend {
                Some(ext) => {
                    let (abbrev, offset, is_dst) = ext.lookup(unix);
                    return ZoneType { abbrev, offset, is_dst };
                },
                None => {},
            }
        }
        self.types[self.transitions[lo - 1].type_idx]
    }

    /// Returns transitions in the half-open interval `[start_unix, end_unix)`,
    /// combining stored transitions with ones generated from the POSIX TZ
    /// extend rule. The result is yielded in chronological order.
    pub fn transitions_for_range<'z>(&'z self, start_unix: i64, end_unix: i64) -> (r: RangeIter<
        'z,
        'a,
    >)
        requires
            self@.generates() ==> unix_in_domain(start_unix as int) && unix_in_domain(
                end_unix as int,
            ),
        ensures
            r.wf(),
            r.remaining() == self@.range(start_unix as int, end_unix as int),
    {
        proof {
            use_type_invariant(self);
        }
        let n = self.transitions.len();
        let last_stored = if n > 0 {
            self.transitions[n - 1].when
        } else {
            i64::MIN
        };
        let generate = match &self.extend {
            Some(e) => e.has_dst(),
            None => false,
        };
        let (year, end_year) = if generate {
            (year_of(start_unix), year_of(end_unix))
        } else {
            (0, 0)
        };
        let r = RangeIter {
            zone: self,
            start_unix,
            end_unix,
            stored_idx: 0,
            stored_done: false,
            last_stored,
            generate,
            year,
            end_year,
            pending: Vec::new(),
            pending_i: 0,
        };
        assert(r.remaining() =~= self@.range(start_unix as int, end_unix as int));
        r
    }
}

} // verus!

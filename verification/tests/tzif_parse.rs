use timezone_data::{parse, Error};

/// A local time type: UTC offset, DST flag, index into the abbreviations.
struct Ty(i32, bool, u8);

/// One data block of a TZif file.
struct Block<'b> {
    times: &'b [i64],
    idxs: &'b [u8],
    types: &'b [Ty],
    chars: &'b [u8],
    leaps: &'b [(i64, i32)],
    isstd: &'b [u8],
    isut: &'b [u8],
}

fn header(out: &mut Vec<u8>, version: u8, b: &Block) {
    out.extend_from_slice(b"TZif");
    out.push(version);
    out.extend_from_slice(&[0u8; 15]);
    for c in [
        b.isut.len(),
        b.isstd.len(),
        b.leaps.len(),
        b.times.len(),
        b.types.len(),
        b.chars.len(),
    ] {
        out.extend_from_slice(&(c as u32).to_be_bytes());
    }
}

fn body(out: &mut Vec<u8>, b: &Block, wide: bool) {
    for &t in b.times {
        if wide {
            out.extend_from_slice(&t.to_be_bytes());
        } else {
            out.extend_from_slice(&(t as i32).to_be_bytes());
        }
    }
    out.extend_from_slice(b.idxs);
    for ty in b.types {
        out.extend_from_slice(&ty.0.to_be_bytes());
        out.push(ty.1 as u8);
        out.push(ty.2);
    }
    out.extend_from_slice(b.chars);
    for &(t, c) in b.leaps {
        if wide {
            out.extend_from_slice(&t.to_be_bytes());
        } else {
            out.extend_from_slice(&(t as i32).to_be_bytes());
        }
        out.extend_from_slice(&c.to_be_bytes());
    }
    out.extend_from_slice(b.isstd);
    out.extend_from_slice(b.isut);
}

fn v1(b: &Block) -> Vec<u8> {
    let mut out = Vec::new();
    header(&mut out, 0, b);
    body(&mut out, b, false);
    out
}

fn v2(b: &Block, footer: &[u8]) -> Vec<u8> {
    let mut out = Vec::new();
    header(&mut out, b'2', b);
    body(&mut out, b, false);
    header(&mut out, b'2', b);
    body(&mut out, b, true);
    out.extend_from_slice(footer);
    out
}

const NY_TYPES: [Ty; 3] = [Ty(-17762, false, 0), Ty(-18000, false, 4), Ty(-14400, true, 8)];
const NY_CHARS: &[u8] = b"LMT\0EST\0EDT\0";

fn ny_block() -> Block<'static> {
    Block {
        times: &[-2_000_000_000, 1_699_081_200, 1_710_054_000],
        idxs: &[1, 1, 2],
        types: &NY_TYPES,
        chars: NY_CHARS,
        leaps: &[],
        isstd: &[],
        isut: &[],
    }
}

#[test]
fn parse_v1_fields() {
    let data = v1(&ny_block());
    let z = parse("Test/V1", &data).unwrap();
    assert_eq!(z.name(), "Test/V1");
    assert_eq!(z.version(), 1);
    assert_eq!(z.raw_data(), &data[..]);
    assert_eq!(z.type_count(), 3);
    let t = z.types();
    assert_eq!((t[0].abbrev, t[0].offset, t[0].is_dst), ("LMT", -17762, false));
    assert_eq!((t[1].abbrev, t[1].offset, t[1].is_dst), ("EST", -18000, false));
    assert_eq!((t[2].abbrev, t[2].offset, t[2].is_dst), ("EDT", -14400, true));
    let tr = z.transitions();
    assert_eq!(tr.len(), 3);
    assert_eq!((tr[1].when, tr[1].type_idx), (1_699_081_200, 1));
    assert!(!tr[1].is_std && !tr[1].is_ut);
    assert!(z.extend().is_none());
    assert_eq!(z.extend_raw(), "");
    assert!(z.leap_seconds().is_empty());
}

#[test]
fn parse_v1_lookup() {
    let data = v1(&ny_block());
    let z = parse("Test/V1", &data).unwrap();
    // Before the first transition: the first standard type.
    assert_eq!(z.lookup(-3_000_000_000).abbrev, "LMT");
    // Exactly at a transition, that transition's type.
    assert_eq!(z.lookup(1_699_081_200).abbrev, "EST");
    assert_eq!(z.lookup(1_699_081_199).abbrev, "EST");
    assert_eq!(z.lookup(1_710_053_999).abbrev, "EST");
    // After the last transition, with no rule: the last transition's type.
    assert_eq!(z.lookup(1_710_054_000).abbrev, "EDT");
    assert_eq!(z.lookup(4_000_000_000).abbrev, "EDT");
}

#[test]
fn parse_first_std_type_skips_dst() {
    let types = [Ty(3600, true, 0), Ty(0, false, 4)];
    let b = Block {
        times: &[100],
        idxs: &[0],
        types: &types,
        chars: b"DDD\0SSS\0",
        leaps: &[],
        isstd: &[],
        isut: &[],
    };
    let data = v1(&b);
    let z = parse("Test/Dst", &data).unwrap();
    assert_eq!(z.lookup(0).abbrev, "SSS");
    assert_eq!(z.lookup(100).abbrev, "DDD");
}

#[test]
fn parse_v2_with_footer() {
    let data = v2(&ny_block(), b"\nEST5EDT,M3.2.0,M11.1.0\n");
    let z = parse("Test/V2", &data).unwrap();
    assert_eq!(z.version(), 2);
    assert_eq!(z.extend_raw(), "EST5EDT,M3.2.0,M11.1.0");
    let rule = z.extend().unwrap();
    assert_eq!(rule.std_abbrev, "EST");
    // Past the last transition the rule answers: 2024-11-03 06:00 UTC ends DST.
    assert_eq!(z.lookup(1_730_613_599).abbrev, "EDT");
    assert_eq!(z.lookup(1_730_613_600).abbrev, "EST");
    // 2025-07-01 is in DST again.
    assert_eq!(z.lookup(1_751_328_000).abbrev, "EDT");
}

#[test]
fn parse_v2_footer_variants() {
    // A footer that does not parse keeps its text but gives no rule.
    let data = v2(&ny_block(), b"\n<EST5\n");
    let z = parse("Test/Bad", &data).unwrap();
    assert!(z.extend().is_none());
    assert_eq!(z.extend_raw(), "<EST5");
    // No footer at all.
    let data = v2(&ny_block(), b"");
    let z = parse("Test/None", &data).unwrap();
    assert!(z.extend().is_none());
    assert_eq!(z.extend_raw(), "");
    // An unterminated footer is ignored.
    let data = v2(&ny_block(), b"\nEST5EDT");
    let z = parse("Test/Open", &data).unwrap();
    assert!(z.extend().is_none());
    assert_eq!(z.extend_raw(), "");
}

#[test]
fn parse_leap_seconds_and_flags() {
    let types = [Ty(0, false, 0)];
    let b = Block {
        times: &[10, 20],
        idxs: &[0, 0],
        types: &types,
        chars: b"UTC\0",
        leaps: &[(78_796_800, 1), (94_694_401, 2)],
        isstd: &[1, 0],
        isut: &[0, 1],
    };
    let data = v1(&b);
    let z = parse("Test/Leap", &data).unwrap();
    let ls = z.leap_seconds();
    assert_eq!(ls.len(), 2);
    assert_eq!((ls[0].when, ls[0].correction), (78_796_800, 1));
    assert_eq!((ls[1].when, ls[1].correction), (94_694_401, 2));
    let tr = z.transitions();
    assert!(tr[0].is_std && !tr[0].is_ut);
    assert!(!tr[1].is_std && tr[1].is_ut);
    // The same in a version 2 block, with 64-bit records.
    let data = v2(&b, b"\nUTC0\n");
    let z = parse("Test/Leap2", &data).unwrap();
    assert_eq!(z.leap_seconds()[1].when, 94_694_401);
    assert_eq!(z.lookup(15).abbrev, "UTC");
}

#[test]
fn parse_abbreviation_that_is_not_utf8_is_empty() {
    let types = [Ty(0, false, 0), Ty(60, false, 3)];
    let b = Block {
        times: &[],
        idxs: &[],
        types: &types,
        chars: &[0xff, 0xfe, 0, b'O', b'K', 0],
        leaps: &[],
        isstd: &[],
        isut: &[],
    };
    let data = v1(&b);
    let z = parse("Test/Utf8", &data).unwrap();
    assert_eq!(z.type_at(0).abbrev, "");
    assert_eq!(z.type_at(1).abbrev, "OK");
    // No transitions: the first type is in effect everywhere.
    assert_eq!(z.lookup(0).offset, 0);
}

#[test]
fn parse_abbreviation_index_past_the_end_is_empty() {
    let types = [Ty(0, false, 9)];
    let b = Block {
        times: &[],
        idxs: &[],
        types: &types,
        chars: b"UTC\0",
        leaps: &[],
        isstd: &[],
        isut: &[],
    };
    let data = v1(&b);
    let z = parse("Test/Idx", &data).unwrap();
    assert_eq!(z.types()[0].abbrev, "");
}

fn bad(data: &[u8]) -> &'static str {
    match parse("Test/Err", data) {
        Err(Error::BadData(m)) => m,
        Err(e) => panic!("unexpected error {:?}", e),
        Ok(_) => panic!("parsed"),
    }
}

#[test]
fn parse_errors() {
    let good = v1(&ny_block());
    assert_eq!(bad(&good[..43]), "file too short");
    let mut d = good.clone();
    d[0] = b'X';
    assert_eq!(bad(&d), "invalid magic number");
    let mut d = good.clone();
    d[4] = b'1';
    assert_eq!(bad(&d), "unknown version byte");
    let empty = Block {
        times: &[],
        idxs: &[],
        types: &[],
        chars: &[],
        leaps: &[],
        isstd: &[],
        isut: &[],
    };
    assert_eq!(bad(&v1(&empty)), "no time types");
    assert_eq!(bad(&good[..good.len() - 1]), "v1 data block truncated");
    let idx = Block { idxs: &[1, 3, 2], ..ny_block() };
    assert_eq!(bad(&v1(&idx)), "transition type index out of range");
}

#[test]
fn parse_v2_errors() {
    let good = v2(&ny_block(), b"\nEST5EDT,M3.2.0,M11.1.0\n");
    let v1_len = v1(&ny_block()).len();
    assert_eq!(bad(&good[..v1_len + 43]), "v2 header truncated");
    let mut d = good.clone();
    d[v1_len] = b'X';
    assert_eq!(bad(&d), "v2 magic mismatch");
    // The v2 block's own counts are checked.
    let mut d = good.clone();
    for k in 0..4 {
        d[v1_len + 36 + k] = 0;
    }
    assert_eq!(bad(&d), "no time types in v2 block");
    assert_eq!(bad(&good[..v1_len + 44 + 10]), "data block truncated");
}

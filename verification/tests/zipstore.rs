use timezone_data::zipstore::{find, find_named, names, read_all};
use timezone_data::Error;

struct Entry<'b> {
    name: &'b [u8],
    data: &'b [u8],
    method: u16,
}

/// Builds a zip archive of stored entries, with `comment` after the
/// end-of-central-directory record.
fn build(entries: &[Entry], comment: &[u8]) -> Vec<u8> {
    let mut out = Vec::new();
    let mut offsets = Vec::new();
    for e in entries {
        offsets.push(out.len() as u32);
        out.extend_from_slice(&0x0403_4b50u32.to_le_bytes());
        out.extend_from_slice(&[20, 0, 0, 0]);
        out.extend_from_slice(&e.method.to_le_bytes());
        out.extend_from_slice(&[0; 8]);
        out.extend_from_slice(&(e.data.len() as u32).to_le_bytes());
        out.extend_from_slice(&(e.data.len() as u32).to_le_bytes());
        out.extend_from_slice(&(e.name.len() as u16).to_le_bytes());
        out.extend_from_slice(&0u16.to_le_bytes());
        out.extend_from_slice(e.name);
        out.extend_from_slice(e.data);
    }
    let cd = out.len() as u32;
    for (e, off) in entries.iter().zip(offsets) {
        out.extend_from_slice(&0x0201_4b50u32.to_le_bytes());
        out.extend_from_slice(&[20, 0, 20, 0, 0, 0]);
        out.extend_from_slice(&e.method.to_le_bytes());
        out.extend_from_slice(&[0; 8]);
        out.extend_from_slice(&(e.data.len() as u32).to_le_bytes());
        out.extend_from_slice(&(e.data.len() as u32).to_le_bytes());
        out.extend_from_slice(&(e.name.len() as u16).to_le_bytes());
        out.extend_from_slice(&[0; 12]);
        out.extend_from_slice(&off.to_le_bytes());
        out.extend_from_slice(e.name);
    }
    let cd_size = out.len() as u32 - cd;
    out.extend_from_slice(&0x0605_4b50u32.to_le_bytes());
    out.extend_from_slice(&[0; 4]);
    out.extend_from_slice(&(entries.len() as u16).to_le_bytes());
    out.extend_from_slice(&(entries.len() as u16).to_le_bytes());
    out.extend_from_slice(&cd_size.to_le_bytes());
    out.extend_from_slice(&cd.to_le_bytes());
    out.extend_from_slice(&(comment.len() as u16).to_le_bytes());
    out.extend_from_slice(comment);
    out
}

fn sample() -> Vec<u8> {
    build(
        &[
            Entry { name: b"Europe/Paris", data: b"paris-bytes", method: 0 },
            Entry { name: b"UTC", data: b"utc", method: 0 },
            Entry { name: b"packed", data: b"xx", method: 8 },
        ],
        b"",
    )
}

#[test]
fn zip_find_stored_entries() {
    let zip = sample();
    assert_eq!(find(&zip, "Europe/Paris").unwrap(), b"paris-bytes");
    assert_eq!(find(&zip, "UTC").unwrap(), b"utc");
    let (name, data) = find_named(&zip, "UTC").unwrap();
    assert_eq!((name, data), ("UTC", &b"utc"[..]));
}

#[test]
fn zip_names_in_directory_order() {
    let zip = sample();
    assert_eq!(names(&zip), vec!["Europe/Paris", "UTC", "packed"]);
}

#[test]
fn zip_with_comment() {
    let zip = build(&[Entry { name: b"a", data: b"1", method: 0 }], b"a trailing comment");
    assert_eq!(find(&zip, "a").unwrap(), b"1");
}

#[test]
fn zip_errors() {
    let zip = sample();
    assert_eq!(find(&zip, "Nowhere"), Err(Error::NotFound));
    assert_eq!(find(&zip, "utc"), Err(Error::NotFound));
    assert_eq!(find(&zip, "packed"), Err(Error::BadZip("entry is compressed")));
    assert_eq!(find(&zip[..21], "UTC"), Err(Error::BadZip("archive too short")));
    assert_eq!(
        find(&[0u8; 40], "UTC"),
        Err(Error::BadZip("no end-of-central-directory record"))
    );
    // A central directory offset past the end of the archive.
    let mut bad = zip.clone();
    let n = bad.len();
    bad[n - 6..n - 2].copy_from_slice(&0xffff_fff0u32.to_le_bytes());
    assert_eq!(find(&bad, "UTC"), Err(Error::BadZip("central directory offset out of range")));
    assert!(names(&bad).is_empty());
    // A local header whose signature is damaged.
    let mut bad = zip.clone();
    bad[0] = 0;
    assert_eq!(find(&bad, "Europe/Paris"), Err(Error::BadZip("bad local file header")));
    // The other entry is still readable.
    assert_eq!(find(&bad, "UTC").unwrap(), b"utc");
}

#[test]
fn zip_entry_data_out_of_range() {
    let mut zip = build(&[Entry { name: b"a", data: b"12345", method: 0 }], b"");
    // Claim a larger size in the central directory record.
    let cd = 30 + 1 + 5;
    zip[cd + 24..cd + 28].copy_from_slice(&1000u32.to_le_bytes());
    assert_eq!(find(&zip, "a"), Err(Error::BadZip("entry data out of range")));
}

#[test]
fn zip_name_not_utf8_ends_directory() {
    let zip = build(
        &[
            Entry { name: b"ok", data: b"1", method: 0 },
            Entry { name: &[0xff, 0xfe], data: b"2", method: 0 },
            Entry { name: b"after", data: b"3", method: 0 },
        ],
        b"",
    );
    assert_eq!(names(&zip), vec!["ok"]);
    assert_eq!(find(&zip, "after"), Err(Error::NotFound));
}

#[test]
fn zip_read_all_files_skipping_directories() {
    let zip = build(
        &[
            Entry { name: b"Europe/", data: b"", method: 0 },
            Entry { name: b"Europe/Paris", data: b"p", method: 0 },
            Entry { name: b"zone1970.tab", data: b"tab", method: 0 },
            Entry { name: b"packed/", data: b"", method: 8 },
        ],
        b"",
    );
    let files = read_all(&zip);
    assert_eq!(files, vec![("Europe/Paris", &b"p"[..]), ("zone1970.tab", &b"tab"[..])]);
}

#[test]
fn zip_read_all_small_archives() {
    let one = build(&[Entry { name: b"a", data: b"1", method: 0 }], b"with a comment");
    assert_eq!(read_all(&one), vec![("a", &b"1"[..])]);
    let empty = build(&[], b"");
    assert_eq!(read_all(&empty), vec![]);
}

//! Minimal reader for zip archives whose entries are stored uncompressed.
//!
//! Locating an entry is a matter of walking the central directory and
//! returning a sub-slice of the backing bytes; nothing is copied.

use vstd::prelude::*;
use vstd::utf8::{decode_utf8, valid_utf8};

use crate::error::Error;
use crate::text::{chars_vec, str_eq};
use crate::tzif::str_from_utf8;

verus! {

/// Signature of the End Of Central Directory record.
pub const EOCD_SIG: u32 = 0x0605_4b50;

/// Signature of a central directory file header.
pub const CEN_SIG: u32 = 0x0201_4b50;

/// Signature of a local file header.
pub const LOC_SIG: u32 = 0x0403_4b50;

/// Size of an End Of Central Directory record without its comment.
pub const EOCD_MIN_LEN: usize = 22;

// ---------------------------------------------------------------------------
// Model
// ---------------------------------------------------------------------------

/// Little-endian 16-bit value at `o`, if the bytes are there.
pub open spec fn le_u16_at(d: Seq<u8>, o: int) -> Option<int> {
    if 0 <= o && o + 2 <= d.len() {
        Some(d[o] + d[o + 1] * 256)
    } else {
        None
    }
}

/// Little-endian 32-bit value at `o`, if the bytes are there.
pub open spec fn le_u32_at(d: Seq<u8>, o: int) -> Option<int> {
    if 0 <= o && o + 4 <= d.len() {
        Some(d[o] + d[o + 1] * 256 + d[o + 2] * 65536 + d[o + 3] * 16777216)
    } else {
        None
    }
}

/// The last position in `[start, i]` holding the EOCD signature, scanning down from `i`.
pub open spec fn find_eocd(zip: Seq<u8>, i: int, start: int) -> Option<int>
    decreases i - start,
{
    if le_u32_at(zip, i) == Some(EOCD_SIG as int) {
        Some(i)
    } else if i <= start {
        None
    } else {
        find_eocd(zip, i - 1, start)
    }
}

/// Where the central directory starts and how many entries it announces.
pub open spec fn spec_open(zip: Seq<u8>) -> Result<(int, int), &'static str> {
    if zip.len() < 22 {
        Err("archive too short")
    } else {
        let max_back = if zip.len() < 22 + 0xffff {
            zip.len() as int
        } else {
            22int + 0xffff
        };
        match find_eocd(zip, zip.len() - 22, zip.len() - max_back) {
            None => Err("no end-of-central-directory record"),
            Some(eocd) => match (le_u16_at(zip, eocd + 10), le_u32_at(zip, eocd + 16)) {
                (Some(total), Some(cd_offset)) => if cd_offset > zip.len() {
                    Err("central directory offset out of range")
                } else {
                    Ok((cd_offset, total))
                },
                _ => Err("truncated EOCD"),
            },
        }
    }
}

/// A central directory record.
pub struct EntryModel {
    pub name: Seq<char>,
    pub method: int,
    pub uncompressed_size: int,
    pub local_offset: int,
}

/// The record at `p` and the position after it, or `None` where the
/// directory ends (bad signature, truncated record, or a name that is not UTF-8).
pub open spec fn spec_entry(zip: Seq<u8>, p: int) -> Option<(EntryModel, int)> {
    match (
        le_u32_at(zip, p),
        le_u16_at(zip, p + 10),
        le_u32_at(zip, p + 24),
        le_u16_at(zip, p + 28),
        le_u16_at(zip, p + 30),
        le_u16_at(zip, p + 32),
        le_u32_at(zip, p + 42),
    ) {
        (
            Some(sig),
            Some(method),
            Some(size),
            Some(name_len),
            Some(extra_len),
            Some(comment_len),
            Some(local_offset),
        ) => {
            let name_start = p + 46;
            if sig != CEN_SIG as int || name_start + name_len > zip.len() {
                None
            } else {
                let name_bytes = zip.subrange(name_start, name_start + name_len);
                if !valid_utf8(name_bytes) {
                    None
                } else {
                    Some(
                        (
                            EntryModel {
                                name: decode_utf8(name_bytes),
                                method,
                                uncompressed_size: size,
                                local_offset,
                            },
                            name_start + name_len + extra_len + comment_len,
                        ),
                    )
                }
            }
        },
        _ => None,
    }
}

/// The records of the central directory from `p` on, at most `remaining` of them.
pub open spec fn spec_entries(zip: Seq<u8>, p: int, remaining: nat) -> Seq<EntryModel>
    decreases remaining,
{
    if remaining == 0 {
        Seq::empty()
    } else {
        match spec_entry(zip, p) {
            None => Seq::empty(),
            Some((e, next)) => seq![e] + spec_entries(zip, next, (remaining - 1) as nat),
        }
    }
}

/// All records of the archive's central directory.
pub open spec fn archive_entries(zip: Seq<u8>) -> Result<Seq<EntryModel>, &'static str> {
    match spec_open(zip) {
        Err(e) => Err(e),
        Ok((cd, total)) => Ok(spec_entries(zip, cd, total as nat)),
    }
}

/// The stored bytes of the entry whose local header is at `lo`.
pub open spec fn spec_read_stored(zip: Seq<u8>, lo: int, size: int) -> Result<Seq<u8>, &'static str> {
    if le_u32_at(zip, lo) != Some(LOC_SIG as int) {
        Err("bad local file header")
    } else {
        match (le_u16_at(zip, lo + 26), le_u16_at(zip, lo + 28)) {
            (Some(name_len), Some(extra_len)) => {
                let data_start = lo + 30 + name_len + extra_len;
                if data_start + size <= zip.len() {
                    Ok(zip.subrange(data_start, data_start + size))
                } else {
                    Err("entry data out of range")
                }
            },
            _ => Err("truncated local header"),
        }
    }
}

/// Index of the first entry named `name` from `i` on.
pub open spec fn first_named(entries: Seq<EntryModel>, name: Seq<char>, i: int) -> Option<int>
    decreases entries.len() - i,
{
    if i < 0 || i >= entries.len() {
        None
    } else if entries[i].name == name {
        Some(i)
    } else {
        first_named(entries, name, i + 1)
    }
}

/// What `find_named(zip, name)` yields: the entry's name and stored bytes.
pub open spec fn spec_find_named(zip: Seq<u8>, name: Seq<char>) -> Result<(Seq<char>, Seq<u8>), Error> {
    match archive_entries(zip) {
        Err(m) => Err(Error::BadZip(m)),
        Ok(entries) => match first_named(entries, name, 0) {
            None => Err(Error::NotFound),
            Some(i) => {
                let e = entries[i];
                if e.method != 0 {
                    Err(Error::BadZip("entry is compressed"))
                } else {
                    match spec_read_stored(zip, e.local_offset, e.uncompressed_size) {
                        Err(m) => Err(Error::BadZip(m)),
                        Ok(d) => Ok((e.name, d)),
                    }
                }
            },
        },
    }
}

/// The byte of `v` that counts multiples of `unit` (1, 256, 65536 or 16777216).
pub open spec fn byte_of(v: nat, unit: nat) -> u8 {
    ((v / unit) % 256) as u8
}

/// `v` in four little-endian bytes.
pub open spec fn le32_bytes(v: nat) -> Seq<u8> {
    seq![byte_of(v, 1), byte_of(v, 256), byte_of(v, 65536), byte_of(v, 16777216)]
}

/// `v` in two little-endian bytes.
pub open spec fn le16_bytes(v: nat) -> Seq<u8> {
    seq![byte_of(v, 1), byte_of(v, 256)]
}

/// The fixed part of the local header of a stored entry: signature,
/// versions, flags, method 0, time, date and CRC, sizes, name and extra
/// field lengths.
pub open spec fn local_header(name_len: nat, extra_len: nat, size: nat) -> Seq<u8> {
    le32_bytes(LOC_SIG as nat) + seq![20u8, 0, 0, 0, 0, 0, 0, 0, 0, 0, 0, 0, 0, 0] + le32_bytes(size)
        + le32_bytes(size) + le16_bytes(name_len) + le16_bytes(extra_len)
}

/// The local header and data of a stored entry named by the bytes `name`,
/// with the extra field `extra`, holding `data`.
pub open spec fn local_record(name: Seq<u8>, extra: Seq<u8>, data: Seq<u8>) -> Seq<u8> {
    local_header(name.len(), extra.len(), data.len()) + name + extra + data
}

proof fn lemma_le16(v: nat)
    requires
        v < 0x1_0000,
    ensures
        le16_bytes(v)[0] + le16_bytes(v)[1] * 256 == v,
{
    assert(v / 256 < 256);
}

/// Where an archive holds, at `lo`, the local record of an entry, the bytes
/// read for that entry are its data: they start after the local header's
/// name and extra field, whatever the extra field holds.
pub proof fn law_stored_data_follows_local_header(
    zip: Seq<u8>,
    lo: int,
    name: Seq<u8>,
    extra: Seq<u8>,
    data: Seq<u8>,
)
    requires
        name.len() < 0x1_0000,
        extra.len() < 0x1_0000,
        data.len() < 0x1_0000_0000,
        0 <= lo,
        lo + local_record(name, extra, data).len() <= zip.len(),
        zip.subrange(lo, lo + local_record(name, extra, data).len()) == local_record(
            name,
            extra,
            data,
        ),
    ensures
        spec_read_stored(zip, lo, data.len() as int) == Ok::<Seq<u8>, &'static str>(data),
{
    let rec = local_record(name, extra, data);
    let h = local_header(name.len(), extra.len(), data.len());
    assert forall|k: int| 0 <= k < rec.len() implies zip[lo + k] == rec[k] by {
        assert(zip.subrange(lo, lo + rec.len())[k] == zip[lo + k]);
    }
    assert(h.len() == 30);
    assert forall|k: int| 0 <= k < 30 implies zip[lo + k] == h[k] by {
        assert(rec[k] == h[k]);
    }
    let sig = le32_bytes(LOC_SIG as nat);
    assert(sig[0] == 0x50 && sig[1] == 0x4b && sig[2] == 0x03 && sig[3] == 0x04);
    assert(h[0] == sig[0] && h[1] == sig[1] && h[2] == sig[2] && h[3] == sig[3]);
    assert(le_u32_at(zip, lo) == Some(LOC_SIG as int));
    lemma_le16(name.len());
    lemma_le16(extra.len());
    let nl = le16_bytes(name.len());
    let el = le16_bytes(extra.len());
    assert(h[26] == nl[0] && h[27] == nl[1] && h[28] == el[0] && h[29] == el[1]);
    assert(le_u16_at(zip, lo + 26) == Some(name.len() as int));
    assert(le_u16_at(zip, lo + 28) == Some(extra.len() as int));
    let ds = lo + 30 + name.len() + extra.len();
    assert(zip.subrange(ds, ds + data.len()) =~= data) by {
        assert forall|k: int| 0 <= k < data.len() implies zip.subrange(ds, ds + data.len())[k]
            == data[k] by {
            assert(rec[30 + name.len() + extra.len() + k] == data[k]);
            assert(zip[lo + 30 + name.len() + extra.len() + k] == rec[30 + name.len() + extra.len()
                + k]);
        }
    }
}

/// Finding an entry gives the data of its local record: where the first
/// directory entry named `name` is stored, has the size of `data` and points
/// at a local record of `data` (with any extra field), `find_named` gives
/// `data`.
pub proof fn law_find_gives_entry_data(
    zip: Seq<u8>,
    name: Seq<char>,
    i: int,
    local_name: Seq<u8>,
    extra: Seq<u8>,
    data: Seq<u8>,
)
    requires
        archive_entries(zip) is Ok,
        first_named(archive_entries(zip)->Ok_0, name, 0) == Some(i),
        archive_entries(zip)->Ok_0[i].method == 0,
        archive_entries(zip)->Ok_0[i].uncompressed_size == data.len(),
        local_name.len() < 0x1_0000,
        extra.len() < 0x1_0000,
        data.len() < 0x1_0000_0000,
        ({
            let lo = archive_entries(zip)->Ok_0[i].local_offset;
            &&& 0 <= lo
            &&& lo + local_record(local_name, extra, data).len() <= zip.len()
            &&& zip.subrange(lo, lo + local_record(local_name, extra, data).len()) == local_record(
                local_name,
                extra,
                data,
            )
        }),
    ensures
        spec_find_named(zip, name) == Ok::<(Seq<char>, Seq<u8>), Error>(
            (archive_entries(zip)->Ok_0[i].name, data),
        ),
{
    let lo = archive_entries(zip)->Ok_0[i].local_offset;
    law_stored_data_follows_local_header(zip, lo, local_name, extra, data);
}

// ---------------------------------------------------------------------------
// Reading
// ---------------------------------------------------------------------------

fn u16_at(data: &[u8], off: u128) -> (r: Option<u16>)
    requires
        data@.len() <= usize::MAX,
    ensures
        match r {
            Some(v) => le_u16_at(data@, off as int) == Some(v as int),
            None => le_u16_at(data@, off as int) is None,
        },
{
    let len = data.len() as u128;
    if off <= len && len - off >= 2 {
        let o = off as usize;
        Some(data[o] as u16 + (data[o + 1] as u16) * 256)
    } else {
        None
    }
}

fn u32_at(data: &[u8], off: u128) -> (r: Option<u32>)
    requires
        data@.len() <= usize::MAX,
    ensures
        match r {
            Some(v) => le_u32_at(data@, off as int) == Some(v as int),
            None => le_u32_at(data@, off as int) is None,
        },
{
    let len = data.len() as u128;
    if off <= len && len - off >= 4 {
        let o = off as usize;
        Some(
            data[o] as u32 + (data[o + 1] as u32) * 256 + (data[o + 2] as u32) * 65536 + (data[o
                + 3] as u32) * 16777216,
        )
    } else {
        None
    }
}

/// A single central-directory record.
struct CentralEntry<'a> {
    name: &'a str,
    method: u16,
    uncompressed_size: u32,
    local_offset: u32,
}

impl<'a> CentralEntry<'a> {
    spec fn model(self) -> EntryModel {
        EntryModel {
            name: self.name@,
            method: self.method as int,
            uncompressed_size: self.uncompressed_size as int,
            local_offset: self.local_offset as int,
        }
    }
}

/// Iterator over the central-directory entries of an archive.
struct CentralDir<'a> {
    zip: &'a [u8],
    pos: u64,
    remaining: usize,
}

impl<'a> CentralDir<'a> {
    /// The entries still to come.
    spec fn rest(self) -> Seq<EntryModel> {
        spec_entries(self.zip@, self.pos as int, self.remaining as nat)
    }

    fn open(zip: &'a [u8]) -> (r: Result<Self, Error>)
        ensures
            match r {
                Ok(d) => spec_open(zip@) == Ok::<(int, int), &'static str>(
                    (d.pos as int, d.remaining as int),
                ) && d.zip == zip,
                Err(e) => exists|m: &'static str|
                    spec_open(zip@) == Err::<(int, int), &'static str>(m) && e == Error::BadZip(m),
            },
    {
        let len = zip.len();
        if len < EOCD_MIN_LEN {
            return Err(Error::BadZip("archive too short"));
        }
        // Scan backwards for the End Of Central Directory signature, over at
        // most a 64 KiB trailing comment.
        let max_back = if len < EOCD_MIN_LEN + 0xffff {
            len
        } else {
            EOCD_MIN_LEN + 0xffff
        };
        let start = len - max_back;
        let ghost top = (len - EOCD_MIN_LEN) as int;
        let mut i = len - EOCD_MIN_LEN;
        let mut found = false;
        loop
            invariant_except_break
                !found,
                start <= i <= top,
                find_eocd(zip@, top, start as int) == find_eocd(zip@, i as int, start as int),
            invariant
                len == zip@.len(),
                top == len - 22,
            ensures
                found ==> find_eocd(zip@, top, start as int) == Some(i as int),
                !found ==> find_eocd(zip@, top, start as int) is None,
            decreases i,
        {
            match u32_at(zip, i as u128) {
                Some(v) => {
                    if v == EOCD_SIG {
                        found = true;
                        break;
                    }
                },
                None => {},
            }
            if i == start {
                break;
            }
            i = i - 1;
        }
        if !found {
            return Err(Error::BadZip("no end-of-central-directory record"));
        }
        let eocd = i;
        let total = match u16_at(zip, eocd as u128 + 10) {
            Some(t) => t as usize,
            None => return Err(Error::BadZip("truncated EOCD")),
        };
        let cd_offset = match u32_at(zip, eocd as u128 + 16) {
            Some(c) => c as u64,
            None => return Err(Error::BadZip("truncated EOCD")),
        };
        if cd_offset > len as u64 {
            return Err(Error::BadZip("central directory offset out of range"));
        }
        Ok(CentralDir { zip, pos: cd_offset, remaining: total })
    }

    fn next(&mut self) -> (r: Option<CentralEntry<'a>>)
        requires
            old(self).zip@.len() <= usize::MAX,
            old(self).pos <= old(self).zip@.len(),
        ensures
            final(self).zip == old(self).zip,
            final(self).pos <= final(self).zip@.len(),
            match r {
                Some(e) => old(self).rest().len() > 0 && e.model() == old(self).rest()[0]
                    && final(self).rest() == old(self).rest().drop_first(),
                None => old(self).rest().len() == 0 && final(self).rest().len() == 0,
            },
    {
        if self.remaining == 0 {
            return None;
        }
        let zip = self.zip;
        let p = self.pos as u128;
        let sig = match u32_at(zip, p) {
            Some(v) => v,
            None => return None,
        };
        if sig != CEN_SIG {
            self.remaining = 0;
            return None;
        }
        let method = match u16_at(zip, p + 10) {
            Some(v) => v,
            None => return None,
        };
        let uncompressed_size = match u32_at(zip, p + 24) {
            Some(v) => v,
            None => return None,
        };
        let name_len = match u16_at(zip, p + 28) {
            Some(v) => v as u128,
            None => return None,
        };
        let extra_len = match u16_at(zip, p + 30) {
            Some(v) => v as u128,
            None => return None,
        };
        let comment_len = match u16_at(zip, p + 32) {
            Some(v) => v as u128,
            None => return None,
        };
        let local_offset = match u32_at(zip, p + 42) {
            Some(v) => v,
            None => return None,
        };
        let name_start = p + 46;
        if name_start + name_len > zip.len() as u128 {
            return None;
        }
        let name_bytes: &'a [u8] = &zip[name_start as usize..(name_start + name_len) as usize];
        let name = match str_from_utf8(name_bytes) {
            Some(n) => n,
            None => return None,
        };
        let next_pos = name_start + name_len + extra_len + comment_len;
        let ghost em = EntryModel {
            name: name@,
            method: method as int,
            uncompressed_size: uncompressed_size as int,
            local_offset: local_offset as int,
        };
        let ghost rem = self.remaining;
        assert(spec_entry(zip@, p as int) == Some((em, next_pos as int)));
        assert(old(self).rest() =~= seq![em] + spec_entries(zip@, next_pos as int, (rem - 1) as nat));
        if next_pos > zip.len() as u128 {
            // The following record cannot be read; the directory ends here.
            self.pos = zip.len() as u64;
            self.remaining = 0;
            assert(spec_entries(zip@, next_pos as int, (rem - 1) as nat) =~= Seq::<EntryModel>::empty());
        } else {
            self.pos = next_pos as u64;
            self.remaining = self.remaining - 1;
        }
        Some(CentralEntry { name, method, uncompressed_size, local_offset })
    }
}

fn read_stored(zip: &[u8], local_offset: u32, size: u32) -> (r: Result<&[u8], Error>)
    requires
        zip@.len() <= usize::MAX,
    ensures
        match r {
            Ok(d) => spec_read_stored(zip@, local_offset as int, size as int) == Ok::<
                Seq<u8>,
                &'static str,
            >(d@),
            Err(e) => exists|m: &'static str|
                spec_read_stored(zip@, local_offset as int, size as int) == Err::<
                    Seq<u8>,
                    &'static str,
                >(m) && e == Error::BadZip(m),
        },
{
    let lo = local_offset as u128;
    if u32_at(zip, lo) != Some(LOC_SIG) {
        return Err(Error::BadZip("bad local file header"));
    }
    let name_len = match u16_at(zip, lo + 26) {
        Some(v) => v as u128,
        None => return Err(Error::BadZip("truncated local header")),
    };
    let extra_len = match u16_at(zip, lo + 28) {
        Some(v) => v as u128,
        None => return Err(Error::BadZip("truncated local header")),
    };
    let data_start = lo + 30 + name_len + extra_len;
    if data_start + size as u128 <= zip.len() as u128 {
        Ok(&zip[data_start as usize..(data_start + size as u128) as usize])
    } else {
        Err(Error::BadZip("entry data out of range"))
    }
}

/// Like [`find`], but also returns the archive's canonical name slice.
pub fn find_named<'a>(zip: &'a [u8], name: &str) -> (r: Result<(&'a str, &'a [u8]), Error>)
    ensures
        match r {
            Ok(t) => spec_find_named(zip@, name@) == Ok::<(Seq<char>, Seq<u8>), Error>(
                (t.0@, t.1@),
            ),
            Err(e) => spec_find_named(zip@, name@) == Err::<(Seq<char>, Seq<u8>), Error>(e),
        },
{
    proof {
        assert(zip.len() == zip@.len());
    }
    let mut dir = match CentralDir::open(zip) {
        Ok(d) => d,
        Err(e) => return Err(e),
    };
    let ghost all = dir.rest();
    let ghost mut seen: int = 0;
    loop
        invariant
            dir.zip == zip,
            zip@.len() <= usize::MAX,
            dir.pos <= zip@.len(),
            archive_entries(zip@) == Ok::<Seq<EntryModel>, &'static str>(all),
            0 <= seen <= all.len(),
            dir.rest() == all.subrange(seen, all.len() as int),
            first_named(all, name@, 0) == first_named(all, name@, seen),
        decreases dir.rest().len(),
    {
        let ghost before = dir.rest();
        match dir.next() {
            None => {
                assert(first_named(all, name@, seen) is None);
                return Err(Error::NotFound);
            },
            Some(entry) => {
                proof {
                    assert(all[seen] == entry.model());
                }
                if str_eq(entry.name, name) {
                    if entry.method != 0 {
                        return Err(Error::BadZip("entry is compressed"));
                    }
                    let data = match read_stored(zip, entry.local_offset, entry.uncompressed_size) {
                        Ok(d) => d,
                        Err(e) => return Err(e),
                    };
                    return Ok((entry.name, data));
                }
                proof {
                    seen = seen + 1;
                    assert(dir.rest() =~= all.subrange(seen, all.len() as int));
                }
            },
        }
    }
}

/// Returns the raw (stored) bytes of `name` within `zip`, or an error.
pub fn find<'a>(zip: &'a [u8], name: &str) -> (r: Result<&'a [u8], Error>)
    ensures
        match r {
            Ok(d) => spec_find_named(zip@, name@) matches Ok(t) && t.1 == d@,
            Err(e) => spec_find_named(zip@, name@) == Err::<(Seq<char>, Seq<u8>), Error>(e),
        },
{
    match find_named(zip, name) {
        Ok((_, data)) => Ok(data),
        Err(e) => Err(e),
    }
}

/// Returns every entry name in `zip` (none when the archive cannot be read).
pub fn names<'a>(zip: &'a [u8]) -> (r: Vec<&'a str>)
    ensures
        match archive_entries(zip@) {
            Ok(entries) => r@.len() == entries.len() && forall|i: int|
                0 <= i < r@.len() ==> (#[trigger] r@[i])@ == entries[i].name,
            Err(_) => r@.len() == 0,
        },
{
    let mut out: Vec<&'a str> = Vec::new();
    proof {
        assert(zip.len() == zip@.len());
    }
    let mut dir = match CentralDir::open(zip) {
        Ok(d) => d,
        Err(_) => return out,
    };
    let ghost all = dir.rest();
    loop
        invariant
            dir.zip == zip,
            zip@.len() <= usize::MAX,
            dir.pos <= zip@.len(),
            archive_entries(zip@) == Ok::<Seq<EntryModel>, &'static str>(all),
            out@.len() + dir.rest().len() == all.len(),
            dir.rest() == all.subrange(out@.len() as int, all.len() as int),
            forall|i: int| 0 <= i < out@.len() ==> (#[trigger] out@[i])@ == all[i].name,
        decreases dir.rest().len(),
    {
        match dir.next() {
            None => {
                return out;
            },
            Some(entry) => {
                proof {
                    assert(all[out@.len() as int] == entry.model());
                }
                out.push(entry.name);
                assert(dir.rest() =~= all.subrange(out@.len() as int, all.len() as int));
            },
        }
    }
}

/// `name` names a directory: it ends in `/`.
pub open spec fn is_dir_name(name: Seq<char>) -> bool {
    name.len() > 0 && name.last() == '/'
}

/// `acc` followed by the files of `r`, or the error of `r`.
pub open spec fn prepend_files(acc: Seq<(Seq<char>, Seq<u8>)>, r: Result<Seq<(Seq<char>, Seq<u8>)>, Error>) -> Result<
    Seq<(Seq<char>, Seq<u8>)>,
    Error,
> {
    match r {
        Err(e) => Err(e),
        Ok(rest) => Ok(acc + rest),
    }
}

/// The names and stored bytes of the files among `entries[i..]`, passing
/// over directories; the first failure to read a file ends it with an error.
pub open spec fn spec_files(zip: Seq<u8>, entries: Seq<EntryModel>, i: int) -> Result<
    Seq<(Seq<char>, Seq<u8>)>,
    Error,
>
    decreases entries.len() - i,
{
    if i < 0 || i >= entries.len() {
        Ok(Seq::empty())
    } else {
        let e = entries[i];
        if is_dir_name(e.name) {
            spec_files(zip, entries, i + 1)
        } else if e.method != 0 {
            Err(Error::BadZip("entry is compressed"))
        } else {
            match spec_read_stored(zip, e.local_offset, e.uncompressed_size) {
                Err(m) => Err(Error::BadZip(m)),
                Ok(d) => prepend_files(seq![(e.name, d)], spec_files(zip, entries, i + 1)),
            }
        }
    }
}

/// What `read_all(zip)` yields.
pub open spec fn spec_read_all(zip: Seq<u8>) -> Result<Seq<(Seq<char>, Seq<u8>)>, Error> {
    match archive_entries(zip) {
        Err(m) => Err(Error::BadZip(m)),
        Ok(entries) => spec_files(zip, entries, 0),
    }
}

/// Views of a list of files.
pub open spec fn files_view<'a>(v: Seq<(&'a str, &'a [u8])>) -> Seq<(Seq<char>, Seq<u8>)> {
    v.map_values(|f: (&'a str, &'a [u8])| (f.0@, f.1@))
}

proof fn lemma_prepend_files_push(
    acc: Seq<(Seq<char>, Seq<u8>)>,
    x: (Seq<char>, Seq<u8>),
    r: Result<Seq<(Seq<char>, Seq<u8>)>, Error>,
)
    ensures
        prepend_files(acc, prepend_files(seq![x], r)) == prepend_files(acc.push(x), r),
{
    if let Ok(rest) = r {
        assert(acc + (seq![x] + rest) =~= acc.push(x) + rest);
    }
}

/// Whether `name` ends in `/`.
fn is_dir(name: &str) -> (r: bool)
    ensures
        r == is_dir_name(name@),
{
    let cs = chars_vec(name);
    cs.len() > 0 && cs[cs.len() - 1] == '/'
}

/// The name and stored bytes of every file in `zip`, in directory order,
/// passing over directory entries, or the first failure to read one.
fn read_files<'a>(zip: &'a [u8]) -> (r: Result<Vec<(&'a str, &'a [u8])>, Error>)
    ensures
        match r {
            Ok(v) => spec_read_all(zip@) == Ok::<Seq<(Seq<char>, Seq<u8>)>, Error>(files_view(v@)),
            Err(e) => spec_read_all(zip@) == Err::<Seq<(Seq<char>, Seq<u8>)>, Error>(e),
        },
{
    let mut out: Vec<(&'a str, &'a [u8])> = Vec::new();
    proof {
        assert(zip.len() == zip@.len());
    }
    let mut dir = match CentralDir::open(zip) {
        Ok(d) => d,
        Err(e) => return Err(e),
    };
    let ghost all = dir.rest();
    let ghost mut seen: int = 0;
    proof {
        assert(files_view(out@) =~= Seq::<(Seq<char>, Seq<u8>)>::empty());
        assert(Seq::<(Seq<char>, Seq<u8>)>::empty() + Seq::<(Seq<char>, Seq<u8>)>::empty()
            =~= Seq::<(Seq<char>, Seq<u8>)>::empty());
    }
    loop
        invariant
            dir.zip == zip,
            zip@.len() <= usize::MAX,
            dir.pos <= zip@.len(),
            archive_entries(zip@) == Ok::<Seq<EntryModel>, &'static str>(all),
            0 <= seen <= all.len(),
            dir.rest() == all.subrange(seen, all.len() as int),
            spec_files(zip@, all, 0) == prepend_files(files_view(out@), spec_files(zip@, all, seen)),
        decreases dir.rest().len(),
    {
        let ghost before = dir.rest();
        match dir.next() {
            None => {
                proof {
                    assert(seen == all.len());
                    assert(files_view(out@) + Seq::<(Seq<char>, Seq<u8>)>::empty() =~= files_view(
                        out@,
                    ));
                }
                return Ok(out);
            },
            Some(entry) => {
                proof {
                    assert(before[0] == all[seen]);
                    assert(all[seen] == entry.model());
                }
                if !is_dir(entry.name) {
                    if entry.method != 0 {
                        return Err(Error::BadZip("entry is compressed"));
                    }
                    let data = match read_stored(zip, entry.local_offset, entry.uncompressed_size) {
                        Ok(d) => d,
                        Err(e) => return Err(e),
                    };
                    proof {
                        lemma_prepend_files_push(
                            files_view(out@),
                            (entry.name@, data@),
                            spec_files(zip@, all, seen + 1),
                        );
                    }
                    let ghost prev = out@;
                    out.push((entry.name, data));
                    proof {
                        assert(files_view(out@) =~= files_view(prev).push((entry.name@, data@)));
                    }
                }
                proof {
                    seen = seen + 1;
                    assert(dir.rest() =~= all.subrange(seen, all.len() as int));
                }
            },
        }
    }
}

/// `zip` can be read whole: its end record is found, its central directory
/// holds every entry that the end record announces, and every file (entry
/// whose name does not end in `/`) is stored uncompressed with a local
/// header and data inside the archive.
pub open spec fn readable_archive(zip: Seq<u8>) -> bool {
    match spec_open(zip) {
        Err(_) => false,
        Ok((cd, total)) => {
            &&& spec_entries(zip, cd, total as nat).len() == total
            &&& spec_files(zip, spec_entries(zip, cd, total as nat), 0) is Ok
        },
    }
}

/// Returns the name and stored bytes of every file in the readable archive
/// `zip`, in directory order, passing over directory entries.
pub fn read_all<'a>(zip: &'a [u8]) -> (r: Vec<(&'a str, &'a [u8])>)
    requires
        readable_archive(zip@),
    ensures
        spec_read_all(zip@) == Ok::<Seq<(Seq<char>, Seq<u8>)>, Error>(files_view(r@)),
{
    match read_files(zip) {
        Ok(files) => files,
        Err(_) => Vec::new(),
    }
}

} // verus!

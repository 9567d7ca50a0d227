//! The write side of a FAT32 volume: mirrored FAT updates, chain release
//! and allocation, data and directory record writes, and file creation or
//! overwrite by path.
use vstd::prelude::*;

use crate::bytes::{le32_bytes, write_u32_le};
use crate::fat::{
    BpbParams, FAT32_EOC, FAT32_EOC_MIN, Fat32, FatError, MAX_CHAIN, cluster_offset_spec,
    cluster_size, cluster_size_of, cluster_to_offset, data_start, data_start_of, fat_bytes,
    fat_bytes_of, fat_entry_spec, fat_start, fat_start_of, follow_chain, follow_chain_spec,
    open_path_spec, parse_bpb, parse_bpb_spec, prepend, read_cluster, resolve, read_cluster_spec, read_fat_entry,
};
use crate::dir_entry::{DirEntry, DirEntryView, parse_spec};
use crate::names::{div_ceil, div_ceil_spec, encode_short_name_8_3, encode_spec, split_parent, split_parent_spec};

verus! {

/// `d` with `b[0..4]` written at `off`.
pub open spec fn set4(d: Seq<u8>, off: int, b: Seq<u8>) -> Seq<u8> {
    d.update(off, b[0]).update(off + 1, b[1]).update(off + 2, b[2]).update(off + 3, b[3])
}

/// Byte offset of the entry of cluster `c` in FAT copy `i`.
pub open spec fn fat_copy_offset(p: BpbParams, i: nat, c: u32) -> nat {
    fat_start(p) + i * fat_bytes(p) + c as nat * 4
}

/// Writes the entry of cluster `c` as `v` into FAT copies `i`, `i + 1`, ...
/// in turn; stops at the first copy that does not fit in the image.
/// Gives whether every copy was written, and the image.
pub open spec fn fat_write_from(d: Seq<u8>, p: BpbParams, c: u32, v: u32, i: nat) -> (bool, Seq<u8>)
    decreases p.num_fats - i,
{
    if i >= p.num_fats {
        (true, d)
    } else if fat_copy_offset(p, i, c) + 4 > d.len() {
        (false, d)
    } else {
        fat_write_from(set4(d, fat_copy_offset(p, i, c) as int, le32_bytes(v)), p, c, v, i + 1)
    }
}

/// Frees the clusters `ch[i..]` in turn by zeroing their entries in every
/// FAT copy; stops at the first write that does not fit.
pub open spec fn zero_from(d: Seq<u8>, p: BpbParams, ch: Seq<u32>, i: nat) -> (
    Option<FatError>,
    Seq<u8>,
)
    decreases ch.len() - i,
{
    if i >= ch.len() {
        (None, d)
    } else {
        let w = fat_write_from(d, p, ch[i as int], 0, 0);
        if !w.0 {
            (Some(FatError::OutOfBounds), w.1)
        } else {
            zero_from(w.1, p, ch, i + 1)
        }
    }
}

/// Frees the chain that starts at `start` (nothing to do below 2).
pub open spec fn free_chain_spec(d: Seq<u8>, p: BpbParams, start: u32) -> (
    Option<FatError>,
    Seq<u8>,
) {
    if start < 2 {
        (None, d)
    } else {
        match follow_chain_spec(d, p, start, MAX_CHAIN as nat) {
            Err(e) => (Some(e), d),
            Ok(ch) => zero_from(d, p, ch, 0),
        }
    }
}

/// The highest cluster number that both the data area and one FAT copy can
/// hold, kept below the end-of-chain values.
pub open spec fn max_cluster_spec(d: Seq<u8>, p: BpbParams) -> Result<nat, FatError> {
    if data_start(p) >= d.len() {
        Err(FatError::OutOfBounds)
    } else if cluster_size(p) == 0 {
        Err(FatError::NotFat32)
    } else {
        let dc = ((d.len() - data_start(p)) as int / cluster_size(p) as int) as nat;
        let fe = fat_bytes(p) / 4;
        if dc == 0 || fe < 3 {
            Err(FatError::NotFat32)
        } else {
            let m = if dc < fe - 2 {
                dc + 1
            } else {
                (fe - 1) as nat
            };
            Ok(
                if m < FAT32_EOC_MIN {
                    m
                } else {
                    (FAT32_EOC_MIN - 1) as nat
                },
            )
        }
    }
}

/// The first `needed` clusters from `c` to `max` whose FAT entry is 0.
pub open spec fn free_scan(d: Seq<u8>, p: BpbParams, c: nat, max: nat, needed: nat) -> Result<
    Seq<u32>,
    FatError,
>
    decreases max + 1 - c,
{
    if needed == 0 || c > max {
        Ok(seq![])
    } else {
        match fat_entry_spec(d, p, c as u32) {
            Err(e) => Err(e),
            Ok(v) => if v == 0 {
                prepend(seq![c as u32], free_scan(d, p, c + 1, max, (needed - 1) as nat))
            } else {
                free_scan(d, p, c + 1, max, needed)
            },
        }
    }
}

/// Links `f[i..]` into a chain in every FAT copy: each entry names the
/// next cluster, the last one ends the chain.
pub open spec fn link_from(d: Seq<u8>, p: BpbParams, f: Seq<u32>, i: nat) -> (bool, Seq<u8>)
    decreases f.len() - i,
{
    if i >= f.len() {
        (true, d)
    } else {
        let v = if i + 1 < f.len() {
            f[i + 1int]
        } else {
            FAT32_EOC
        };
        let w = fat_write_from(d, p, f[i as int], v % 0x1000_0000, 0);
        if !w.0 {
            (false, w.1)
        } else {
            link_from(w.1, p, f, i + 1)
        }
    }
}

/// Takes `needed` free clusters, lowest first, and links them.
pub open spec fn alloc_chain_spec(d: Seq<u8>, p: BpbParams, needed: nat) -> (
    Result<Seq<u32>, FatError>,
    Seq<u8>,
) {
    if needed == 0 {
        (Ok(seq![]), d)
    } else {
        match max_cluster_spec(d, p) {
            Err(e) => (Err(e), d),
            Ok(mx) => match free_scan(d, p, 2, mx, needed) {
                Err(e) => (Err(e), d),
                Ok(f) => if f.len() != needed {
                    (Err(FatError::NoSpaceLeft), d)
                } else {
                    let w = link_from(d, p, f, 0);
                    if w.0 {
                        (Ok(f), w.1)
                    } else {
                        (Err(FatError::OutOfBounds), w.1)
                    }
                },
            },
        }
    }
}

/// `d` with the `cs` bytes at `off` replaced by `chunk` and zeros after it.
pub open spec fn fill_cluster(d: Seq<u8>, off: nat, chunk: Seq<u8>, cs: nat) -> Seq<u8> {
    d.subrange(0, off as int) + chunk + Seq::new((cs - chunk.len()) as nat, |k: int| 0u8)
        + d.subrange((off + cs) as int, d.len() as int)
}

/// Writes `content[pos..]` into the clusters `ch[i..]`, one cluster's worth
/// each, zero-filling the tail of the last one.
pub open spec fn data_from(
    d: Seq<u8>,
    p: BpbParams,
    ch: Seq<u32>,
    content: Seq<u8>,
    i: nat,
    pos: nat,
) -> (Option<FatError>, Seq<u8>)
    decreases ch.len() - i,
{
    if i >= ch.len() {
        (None, d)
    } else {
        match cluster_offset_spec(d, p, ch[i as int]) {
            Err(e) => (Some(e), d),
            Ok(off) => if off + cluster_size(p) > d.len() {
                (Some(FatError::OutOfBounds), d)
            } else {
                let end = if pos + cluster_size(p) < content.len() {
                    pos + cluster_size(p)
                } else {
                    content.len()
                };
                let d2 = fill_cluster(
                    d,
                    off,
                    content.subrange(pos as int, end as int),
                    cluster_size(p),
                );
                if end >= content.len() {
                    (None, d2)
                } else {
                    data_from(d2, p, ch, content, i + 1, end)
                }
            },
        }
    }
}

/// Looks through the records of one directory cluster (`data`, which sits
/// at byte `off` of the image) from record `i` on for the one whose name
/// and extension fields are `name` and `ext`, passing over deleted records.
/// `None`: keep looking in the next cluster. `Some(None)`: a terminator came
/// first. `Some(Some((o, e)))`: found at byte `o`, holding entry `e`.
pub open spec fn named_in(data: Seq<u8>, off: nat, i: nat, name: Seq<u8>, ext: Seq<u8>) -> Option<
    Option<(nat, Option<DirEntryView>)>,
>
    decreases data.len() - i * 32,
{
    if (i + 1) * 32 > data.len() {
        None
    } else {
        let rec = data.subrange((i * 32) as int, (i * 32 + 32) as int);
        if rec[0] == 0 {
            Some(None)
        } else if rec[0] == 0xE5 {
            named_in(data, off, i + 1, name, ext)
        } else if rec.subrange(0, 8) == name && rec.subrange(8, 11) == ext {
            Some(Some((off + i * 32, parse_spec(rec))))
        } else {
            named_in(data, off, i + 1, name, ext)
        }
    }
}

/// [`named_in`] over the clusters `ch[j..]`.
pub open spec fn named_from(
    d: Seq<u8>,
    p: BpbParams,
    ch: Seq<u32>,
    j: nat,
    name: Seq<u8>,
    ext: Seq<u8>,
) -> Result<Option<(nat, Option<DirEntryView>)>, FatError>
    decreases ch.len() - j,
{
    if j >= ch.len() {
        Ok(None)
    } else {
        match read_cluster_spec(d, p, ch[j as int]) {
            Err(e) => Err(e),
            Ok(data) => match named_in(
                data,
                cluster_offset_spec(d, p, ch[j as int])->Ok_0,
                0,
                name,
                ext,
            ) {
                Some(x) => Ok(x),
                None => named_from(d, p, ch, j + 1, name, ext),
            },
        }
    }
}

/// The record named `name`/`ext` in the directory whose chain starts at
/// `dc`: its byte offset and the entry it holds.
pub open spec fn find_named_spec(d: Seq<u8>, p: BpbParams, dc: u32, name: Seq<u8>, ext: Seq<u8>) -> Result<
    Option<(nat, Option<DirEntryView>)>,
    FatError,
> {
    match follow_chain_spec(d, p, dc, MAX_CHAIN as nat) {
        Err(e) => Err(e),
        Ok(ch) => named_from(d, p, ch, 0, name, ext),
    }
}

/// The first reusable record of one directory cluster from record `i` on:
/// its byte offset, and whether it was the terminator.
pub open spec fn slot_in(data: Seq<u8>, off: nat, i: nat) -> Option<(nat, bool)>
    decreases data.len() - i * 32,
{
    if (i + 1) * 32 > data.len() {
        None
    } else {
        let b = data[(i * 32) as int];
        if b == 0 {
            Some((off + i * 32, true))
        } else if b == 0xE5 {
            Some((off + i * 32, false))
        } else {
            slot_in(data, off, i + 1)
        }
    }
}

/// [`slot_in`] over the clusters `ch[j..]`, with the end of the cluster
/// that holds the slot; `NoSpaceLeft` when every record is in use.
pub open spec fn slot_from(d: Seq<u8>, p: BpbParams, ch: Seq<u32>, j: nat) -> Result<
    (nat, bool, nat),
    FatError,
>
    decreases ch.len() - j,
{
    if j >= ch.len() {
        Err(FatError::NoSpaceLeft)
    } else {
        match read_cluster_spec(d, p, ch[j as int]) {
            Err(e) => Err(e),
            Ok(data) => {
                let off = cluster_offset_spec(d, p, ch[j as int])->Ok_0;
                match slot_in(data, off, 0) {
                    Some((o, t)) => Ok((o, t, off + cluster_size(p))),
                    None => slot_from(d, p, ch, j + 1),
                }
            },
        }
    }
}

/// The first reusable record of the directory whose chain starts at `dc`.
pub open spec fn free_slot_spec(d: Seq<u8>, p: BpbParams, dc: u32) -> Result<(nat, bool, nat), FatError> {
    match follow_chain_spec(d, p, dc, MAX_CHAIN as nat) {
        Err(e) => Err(e),
        Ok(ch) => slot_from(d, p, ch, 0),
    }
}

/// The two little-endian bytes of `v`.
pub open spec fn le16_bytes(v: nat) -> Seq<u8> {
    seq![(v % 256) as u8, ((v / 256) % 256) as u8]
}

/// The 32 bytes of a file record: name, extension, archive attribute,
/// first cluster split in high and low words, size; every other byte 0.
pub open spec fn record_bytes(name: Seq<u8>, ext: Seq<u8>, fc: u32, size: u32) -> Seq<u8> {
    name + ext + seq![0x20u8] + Seq::new(8, |k: int| 0u8) + le16_bytes(fc as nat / 65536)
        + Seq::new(4, |k: int| 0u8) + le16_bytes(fc as nat % 65536) + le32_bytes(size)
}

/// `d` with the 32 bytes at `off` replaced by `rec`.
pub open spec fn put_record(d: Seq<u8>, off: nat, rec: Seq<u8>) -> Seq<u8> {
    d.subrange(0, off as int) + rec + d.subrange((off + 32) as int, d.len() as int)
}

/// The view of a found record.
pub open spec fn hit_view(h: Option<(usize, Option<DirEntry>)>) -> Option<(nat, Option<DirEntryView>)> {
    match h {
        None => None,
        Some((o, e)) => Some(
            (
                o as nat,
                match e {
                    Some(x) => Some(x@),
                    None => None,
                },
            ),
        ),
    }
}

/// Whether `data[start..start + v.len()]` equals `v`.
fn bytes_eq_at(data: &[u8], start: usize, v: &Vec<u8>) -> (r: bool)
    requires
        start + v@.len() <= data@.len(),
    ensures
        r == (data@.subrange(start as int, start + v@.len()) == v@),
{
    let dl = data.len();
    let mut k: usize = 0;
    while k < v.len()
        invariant
            dl == data@.len(),
            start + v@.len() <= data@.len(),
            k <= v@.len(),
            data@.subrange(start as int, start + k) == v@.subrange(0, k as int),
        decreases v@.len() - k,
    {
        if data[start + k] != v[k] {
            assert(data@.subrange(start as int, start + v@.len())[k as int] != v@[k as int]);
            return false;
        }
        assert(data@.subrange(start as int, start + k + 1) =~= v@.subrange(0, k + 1));
        k += 1;
    }
    assert(v@.subrange(0, k as int) =~= v@);
    true
}

/// [`named_in`] on one cluster's bytes.
fn scan_named(data: &[u8], off: usize, name: &Vec<u8>, ext: &Vec<u8>) -> (r: Option<
    Option<(usize, Option<DirEntry>)>,
>)
    requires
        name@.len() == 8,
        ext@.len() == 3,
        off + data@.len() <= usize::MAX,
    ensures
        match r {
            None => named_in(data@, off as nat, 0, name@, ext@).is_none(),
            Some(h) => named_in(data@, off as nat, 0, name@, ext@) == Some(hit_view(h)),
        },
{
    let dl = data.len();
    let nrec = dl / 32;
    let mut i: usize = 0;
    while i < nrec
        invariant
            dl == data@.len(),
            nrec == dl / 32,
            i <= nrec,
            name@.len() == 8,
            ext@.len() == 3,
            off + data@.len() <= usize::MAX,
            named_in(data@, off as nat, 0, name@, ext@) == named_in(
                data@,
                off as nat,
                i as nat,
                name@,
                ext@,
            ),
        decreases nrec - i,
    {
        assert(i * 32 + 32 <= dl) by (nonlinear_arith)
            requires
                i < nrec,
                nrec == dl / 32,
        ;
        let base = i * 32;
        let ghost rec = data@.subrange(base as int, base + 32);
        if data[base] == 0 {
            return Some(None);
        }
        if data[base] != 0xE5 {
            let rs = &data[base..base + 32];
            assert(rs@ == rec);
            assert(rec.subrange(0, 8) =~= data@.subrange(base as int, base + 8));
            assert(rec.subrange(8, 11) =~= data@.subrange(base + 8, base + 11));
            if bytes_eq_at(data, base, name) && bytes_eq_at(data, base + 8, ext) {
                let parsed = DirEntry::parse(rs);
                return Some(Some((off + base, parsed)));
            }
        }
        i += 1;
    }
    assert(named_in(data@, off as nat, i as nat, name@, ext@).is_none());
    None
}

/// Finds the record whose name and extension fields are `name` and `ext`
/// in the directory whose chain starts at `dir_cluster`.
fn find_dir_entry_offset_by_short_name(
    d: &[u8],
    p: &BpbParams,
    dir_cluster: u32,
    name: &Vec<u8>,
    ext: &Vec<u8>,
) -> (r: Result<Option<(usize, Option<DirEntry>)>, FatError>)
    requires
        name@.len() == 8,
        ext@.len() == 3,
    ensures
        match r {
            Ok(h) => find_named_spec(d@, *p, dir_cluster, name@, ext@) == Ok::<
                Option<(nat, Option<DirEntryView>)>,
                FatError,
            >(hit_view(h)),
            Err(e) => find_named_spec(d@, *p, dir_cluster, name@, ext@) == Err::<
                Option<(nat, Option<DirEntryView>)>,
                FatError,
            >(e),
        },
{
    let chain = match follow_chain(d, p, dir_cluster, MAX_CHAIN) {
        Ok(c) => c,
        Err(e) => return Err(e),
    };
    let mut j: usize = 0;
    while j < chain.len()
        invariant
            j <= chain@.len(),
            name@.len() == 8,
            ext@.len() == 3,
            follow_chain_spec(d@, *p, dir_cluster, MAX_CHAIN as nat) == Ok::<Seq<u32>, FatError>(
                chain@,
            ),
            named_from(d@, *p, chain@, 0, name@, ext@) == named_from(
                d@,
                *p,
                chain@,
                j as nat,
                name@,
                ext@,
            ),
        decreases chain@.len() - j,
    {
        let off = match cluster_to_offset(d, p, chain[j]) {
            Ok(o) => o,
            Err(e) => return Err(e),
        };
        let data = match read_cluster(d, p, chain[j]) {
            Ok(s) => s,
            Err(e) => return Err(e),
        };
        let dlen = d.len();
        assert(off + data@.len() <= dlen);
        match scan_named(data, off, name, ext) {
            Some(h) => return Ok(h),
            None => {},
        }
        j += 1;
    }
    Ok(None)
}

/// [`slot_in`] on one cluster's bytes.
fn scan_slot(data: &[u8], off: usize) -> (r: Option<(usize, bool)>)
    requires
        off + data@.len() <= usize::MAX,
    ensures
        match r {
            None => slot_in(data@, off as nat, 0).is_none(),
            Some((o, t)) => slot_in(data@, off as nat, 0) == Some((o as nat, t)),
        },
{
    let dl = data.len();
    let nrec = dl / 32;
    let mut i: usize = 0;
    while i < nrec
        invariant
            dl == data@.len(),
            nrec == dl / 32,
            i <= nrec,
            off + data@.len() <= usize::MAX,
            slot_in(data@, off as nat, 0) == slot_in(data@, off as nat, i as nat),
        decreases nrec - i,
    {
        assert(i * 32 + 32 <= dl) by (nonlinear_arith)
            requires
                i < nrec,
                nrec == dl / 32,
        ;
        let b = data[i * 32];
        if b == 0 {
            return Some((off + i * 32, true));
        }
        if b == 0xE5 {
            return Some((off + i * 32, false));
        }
        i += 1;
    }
    assert(slot_in(data@, off as nat, i as nat).is_none());
    None
}

/// Finds a reusable record in the directory whose chain starts at
/// `dir_cluster`: its offset, whether it was the terminator, and the end of
/// the cluster that holds it.
fn find_free_dir_entry_slot(d: &[u8], p: &BpbParams, dir_cluster: u32) -> (r: Result<
    (usize, bool, usize),
    FatError,
>)
    ensures
        match r {
            Ok((o, t, e)) => free_slot_spec(d@, *p, dir_cluster) == Ok::<(nat, bool, nat), FatError>(
                (o as nat, t, e as nat),
            ) && e <= d@.len(),
            Err(e) => free_slot_spec(d@, *p, dir_cluster) == Err::<(nat, bool, nat), FatError>(e),
        },
{
    let chain = match follow_chain(d, p, dir_cluster, MAX_CHAIN) {
        Ok(c) => c,
        Err(e) => return Err(e),
    };
    let mut j: usize = 0;
    while j < chain.len()
        invariant
            j <= chain@.len(),
            follow_chain_spec(d@, *p, dir_cluster, MAX_CHAIN as nat) == Ok::<Seq<u32>, FatError>(
                chain@,
            ),
            slot_from(d@, *p, chain@, 0) == slot_from(d@, *p, chain@, j as nat),
        decreases chain@.len() - j,
    {
        let off = match cluster_to_offset(d, p, chain[j]) {
            Ok(o) => o,
            Err(e) => return Err(e),
        };
        let data = match read_cluster(d, p, chain[j]) {
            Ok(s) => s,
            Err(e) => return Err(e),
        };
        let dlen = d.len();
        assert(off + data@.len() <= dlen);
        match scan_slot(data, off) {
            Some((o, t)) => return Ok((o, t, off + data.len())),
            None => {},
        }
        j += 1;
    }
    Err(FatError::NoSpaceLeft)
}

/// Geometry whose counts are all non-zero, as a parsed boot sector has.
pub open spec fn params_ok(p: BpbParams) -> bool {
    p.bytes_per_sector != 0 && p.sectors_per_cluster != 0 && p.num_fats != 0 && p.sectors_per_fat
        != 0
}

/// The first cluster of the directory a new file goes in.
pub open spec fn parent_cluster_spec(d: Seq<u8>, p: BpbParams, parent: Seq<char>) -> Result<
    u32,
    FatError,
> {
    if parent == seq!['/'] {
        Ok(p.root_cluster)
    } else {
        match open_path_spec(d, p, parent) {
            Err(e) => Err(e),
            Ok(None) => Err(FatError::PathNotFound),
            Ok(Some(e)) => if !e.attrs.directory {
                Err(FatError::NotADirectory)
            } else {
                Ok(e.first_cluster)
            },
        }
    }
}

/// Writes the record of the file: over the record found by name, else in
/// the first reusable record of the directory, keeping the directory
/// terminated when that record was the terminator.
pub open spec fn place_spec(
    d: Seq<u8>,
    p: BpbParams,
    pc: u32,
    rec: Seq<u8>,
    hit: Option<(nat, Option<DirEntryView>)>,
) -> (Option<FatError>, Seq<u8>) {
    match hit {
        Some((off, _)) => if off + 32 > d.len() {
            (Some(FatError::OutOfBounds), d)
        } else {
            (None, put_record(d, off, rec))
        },
        None => match free_slot_spec(d, p, pc) {
            Err(e) => (Some(e), d),
            Ok((off, was_end, cend)) => if off + 32 > d.len() {
                (Some(FatError::OutOfBounds), d)
            } else {
                let d2 = put_record(d, off, rec);
                if was_end && off + 32 < cend {
                    (None, d2.update((off + 32) as int, 0u8))
                } else {
                    (None, d2)
                }
            },
        },
    }
}

/// Takes a chain for `content` and writes the data into it: the first
/// cluster (0 for empty content), and the image.
pub open spec fn content_stage(d: Seq<u8>, p: BpbParams, content: Seq<u8>) -> (
    Result<u32, FatError>,
    Seq<u8>,
) {
    if content.len() == 0 {
        (Ok(0), d)
    } else {
        let a = alloc_chain_spec(d, p, div_ceil_spec(content.len(), cluster_size(p)));
        match a.0 {
            Err(e) => (Err(e), a.1),
            Ok(ch) => {
                let w = data_from(a.1, p, ch, content, 0, 0);
                match w.0 {
                    Some(e) => (Err(e), w.1),
                    None => (Ok(ch[0]), w.1),
                }
            },
        }
    }
}

/// Stores `content` under the name `n`/`x` in the directory at `pc`, given
/// what the lookup by name found: frees the old chain, takes a new one,
/// writes the data and then the record.
pub open spec fn store_spec(
    d: Seq<u8>,
    p: BpbParams,
    pc: u32,
    n: Seq<u8>,
    x: Seq<u8>,
    hit: Option<(nat, Option<DirEntryView>)>,
    content: Seq<u8>,
) -> (Option<FatError>, Seq<u8>) {
    let existing: Option<DirEntryView> = match hit {
        Some((_, e)) => e,
        None => None,
    };
    if existing.is_some() && existing->Some_0.attrs.directory {
        (Some(FatError::NotAFile), d)
    } else {
        let fr = if existing.is_some() {
            free_chain_spec(d, p, existing->Some_0.first_cluster)
        } else {
            (None, d)
        };
        if fr.0.is_some() {
            fr
        } else {
            let c = content_stage(fr.1, p, content);
            match c.0 {
                Err(e) => (Some(e), c.1),
                Ok(fc) => place_spec(c.1, p, pc, record_bytes(n, x, fc, content.len() as u32), hit),
            }
        }
    }
}

/// Writing `content` to the file at `path`: the error, if any, and the
/// image afterwards.
pub open spec fn write_spec(d: Seq<u8>, p: BpbParams, path: Seq<char>, content: Seq<u8>) -> (
    Option<FatError>,
    Seq<u8>,
) {
    if path.len() == 0 || path[0] != '/' || path == seq!['/'] {
        (Some(FatError::Other), d)
    } else {
        match split_parent_spec(path) {
            None => (Some(FatError::Other), d),
            Some((parent, fname)) => match encode_spec(fname) {
                None => (Some(FatError::InvalidName), d),
                Some((n, x)) => match parent_cluster_spec(d, p, parent) {
                    Err(e) => (Some(e), d),
                    Ok(pc) => match find_named_spec(d, p, pc, n, x) {
                        Err(e) => (Some(e), d),
                        Ok(hit) => store_spec(d, p, pc, n, x, hit, content),
                    },
                },
            },
        }
    }
}

/// The highest usable cluster number.
fn max_cluster_number(d: &[u8], p: &BpbParams) -> (r: Result<u64, FatError>)
    ensures
        match r {
            Ok(m) => max_cluster_spec(d@, *p) == Ok::<nat, FatError>(m as nat),
            Err(e) => max_cluster_spec(d@, *p) == Err::<nat, FatError>(e),
        },
{
    let ds = data_start_of(p);
    if ds >= d.len() as u64 {
        return Err(FatError::OutOfBounds);
    }
    let cs = cluster_size_of(p);
    if cs == 0 {
        return Err(FatError::NotFat32);
    }
    let dc = (d.len() as u64 - ds) / cs;
    let fe = fat_bytes_of(p) / 4;
    if dc == 0 || fe < 3 {
        return Err(FatError::NotFat32);
    }
    let m = if dc < fe - 2 {
        dc + 1
    } else {
        fe - 1
    };
    Ok(
        if m < FAT32_EOC_MIN as u64 {
            m
        } else {
            FAT32_EOC_MIN as u64 - 1
        },
    )
}

/// The first `needed` free clusters from 2 to `max`.
fn scan_free(d: &[u8], p: &BpbParams, max: u64, needed: usize) -> (r: Result<Vec<u32>, FatError>)
    requires
        2 <= max < FAT32_EOC_MIN,
    ensures
        match r {
            Ok(v) => free_scan(d@, *p, 2, max as nat, needed as nat) == Ok::<Seq<u32>, FatError>(
                v@,
            ),
            Err(e) => free_scan(d@, *p, 2, max as nat, needed as nat) == Err::<
                Seq<u32>,
                FatError,
            >(e),
        },
{
    let mut found: Vec<u32> = Vec::new();
    let mut cl: u64 = 2;
    assert(found@ + Seq::<u32>::empty() =~= Seq::<u32>::empty());
    while cl <= max && found.len() < needed
        invariant
            2 <= cl <= max + 1,
            max < FAT32_EOC_MIN,
            found@.len() <= needed,
            free_scan(d@, *p, 2, max as nat, needed as nat) == prepend(
                found@,
                free_scan(d@, *p, cl as nat, max as nat, (needed - found@.len()) as nat),
            ),
        decreases max + 1 - cl,
    {
        let v = match read_fat_entry(d, p, cl as u32) {
            Ok(v) => v,
            Err(e) => return Err(e),
        };
        if v == 0 {
            let ghost before = found@;
            found.push(cl as u32);
            proof {
                match free_scan(d@, *p, (cl + 1) as nat, max as nat, (needed - found@.len()) as nat) {
                    Ok(t) => {
                        assert(before + (seq![cl as u32] + t) =~= found@ + t);
                    },
                    Err(_) => {},
                }
            }
        }
        cl += 1;
    }
    assert(found@ + Seq::<u32>::empty() =~= found@);
    Ok(found)
}

/// Writes `content[pos..end]` at `off` and zeros up to `off + cs`.
fn fill_cluster_bytes(d: &mut [u8], off: usize, content: &[u8], pos: usize, end: usize, cs: usize)
    requires
        pos <= end <= content@.len(),
        end - pos <= cs,
        off + cs <= old(d)@.len(),
    ensures
        final(d)@ == fill_cluster(
            old(d)@,
            off as nat,
            content@.subrange(pos as int, end as int),
            cs as nat,
        ),
{
    let n = end - pos;
    let dl = d.len();
    let mut k: usize = 0;
    while k < cs
        invariant
            dl == d@.len(),
            pos <= end <= content@.len(),
            n == end - pos,
            n <= cs,
            off + cs <= d@.len(),
            d@.len() == old(d)@.len(),
            forall|j: int| 0 <= j < off || off + cs <= j < d@.len() ==> d@[j] == old(d)@[j],
            forall|j: int| 0 <= j < k && j < n ==> #[trigger] d@[off + j] == content@[pos + j],
            forall|j: int| n <= j < k ==> #[trigger] d@[off + j] == 0u8,
            k <= cs,
        decreases cs - k,
    {
        if k < n {
            d[off + k] = content[pos + k];
        } else {
            d[off + k] = 0;
        }
        k += 1;
    }
    let ghost f = fill_cluster(old(d)@, off as nat, content@.subrange(pos as int, end as int), cs as nat);
    assert forall|j: int| 0 <= j < d@.len() implies d@[j] == f[j] by {
        if off <= j < off + cs {
            let t = j - off;
            assert(d@[off + t] == d@[j]);
        }
    }
    assert(d@ =~= f);
}

/// A read-write view of a volume held in memory.
#[derive(Debug)]
pub struct Fat32Mut<'a> {
    disk: &'a mut [u8],
    bpb: BpbParams,
}

impl<'a> Fat32Mut<'a> {
    /// The image bytes.
    pub closed spec fn image(&self) -> Seq<u8> {
        self.disk@
    }

    /// The geometry read from the image when the view was made.
    pub closed spec fn params(&self) -> BpbParams {
        self.bpb
    }

    /// Opens a writable view on `disk`, reading its boot sector.
    pub fn new(disk: &'a mut [u8]) -> (r: Result<Self, FatError>)
        ensures
            match r {
                Ok(fs) => parse_bpb_spec(old(disk)@) == Ok::<BpbParams, FatError>(fs.params())
                    && fs.image() == old(disk)@,
                Err(e) => parse_bpb_spec(old(disk)@) == Err::<BpbParams, FatError>(e),
            },
    {
        match parse_bpb(disk) {
            Ok(bpb) => Ok(Fat32Mut { disk, bpb }),
            Err(e) => Err(e),
        }
    }

    /// A read-only view of the same image.
    pub fn as_read(&self) -> (r: Fat32<'_>)
        ensures
            r.image() == self.image(),
            r.params() == self.params(),
    {
        Fat32::from_parts(&*self.disk, self.bpb)
    }

    /// Creates or overwrites the file at an absolute path with `content`.
    ///
    /// The parent directory must exist and the name must be a valid 8.3
    /// name. An existing file's chain is freed before the new chain is
    /// taken, so a later failure (no space left) leaves it freed.
    pub fn write_file_by_path(&mut self, path: &str, content: &[u8]) -> (r: Result<(), FatError>)
        requires
            params_ok(old(self).params()),
            content@.len() <= u32::MAX,
        ensures
            final(self).params() == old(self).params(),
            final(self).image() == write_spec(
                old(self).image(),
                old(self).params(),
                path@,
                content@,
            ).1,
            match r {
                Ok(_) => write_spec(old(self).image(), old(self).params(), path@, content@).0.is_none(),
                Err(e) => write_spec(old(self).image(), old(self).params(), path@, content@).0
                    == Some(e),
            },
    {
        let plen = path.unicode_len();
        if plen == 0 || path.get_char(0) != '/' {
            return Err(FatError::Other);
        }
        if plen == 1 {
            assert(path@ =~= seq!['/']);
            return Err(FatError::Other);
        }
        assert(path@ != seq!['/']);
        let (parent, file_name) = match split_parent(path) {
            Ok(x) => x,
            Err(e) => return Err(e),
        };
        let (name_raw, ext_raw) = match encode_short_name_8_3(file_name) {
            Ok(x) => x,
            Err(e) => return Err(e),
        };
        let parent_cluster = if parent.unicode_len() == 1 && parent.get_char(0) == '/' {
            assert(parent@ =~= seq!['/']);
            self.bpb.root_cluster
        } else {
            let entry = match resolve(&*self.disk, &self.bpb, parent) {
                Ok(Some(e)) => e,
                Ok(None) => return Err(FatError::PathNotFound),
                Err(e) => return Err(e),
            };
            if !entry.is_dir() {
                return Err(FatError::NotADirectory);
            }
            entry.first_cluster
        };
        assert(parent_cluster_spec(self.disk@, self.bpb, parent@) == Ok::<u32, FatError>(
            parent_cluster,
        ));
        let hit = match find_dir_entry_offset_by_short_name(
            &*self.disk,
            &self.bpb,
            parent_cluster,
            &name_raw,
            &ext_raw,
        ) {
            Ok(h) => h,
            Err(e) => return Err(e),
        };
        self.store(parent_cluster, &name_raw, &ext_raw, hit, content)
    }

    /// Stores `content` under the name `name`/`ext` in the directory at
    /// `parent_cluster`, given what the lookup by name found.
    fn store(
        &mut self,
        parent_cluster: u32,
        name: &Vec<u8>,
        ext: &Vec<u8>,
        hit: Option<(usize, Option<DirEntry>)>,
        content: &[u8],
    ) -> (r: Result<(), FatError>)
        requires
            params_ok(old(self).params()),
            content@.len() <= u32::MAX,
            name@.len() == 8,
            ext@.len() == 3,
        ensures
            final(self).params() == old(self).params(),
            final(self).image() == store_spec(
                old(self).image(),
                old(self).params(),
                parent_cluster,
                name@,
                ext@,
                hit_view(hit),
                content@,
            ).1,
            match r {
                Ok(_) => store_spec(
                    old(self).image(),
                    old(self).params(),
                    parent_cluster,
                    name@,
                    ext@,
                    hit_view(hit),
                    content@,
                ).0.is_none(),
                Err(e) => store_spec(
                    old(self).image(),
                    old(self).params(),
                    parent_cluster,
                    name@,
                    ext@,
                    hit_view(hit),
                    content@,
                ).0 == Some(e),
            },
    {
        let (existing_off, existing_entry) = match hit {
            Some((o, e)) => (Some(o), e),
            None => (None, None),
        };
        match &existing_entry {
            Some(e) => {
                if e.is_dir() {
                    return Err(FatError::NotAFile);
                }
                match self.free_chain(e.first_cluster) {
                    Ok(()) => {},
                    Err(err) => return Err(err),
                }
            },
            None => {},
        }
        let first_cluster = match self.write_content(content) {
            Ok(c) => c,
            Err(e) => return Err(e),
        };
        let size = content.len() as u32;
        self.place(parent_cluster, name, ext, existing_off, first_cluster, size)
    }

    /// Takes a chain for `content` and writes the data into it; gives the
    /// first cluster (0 for empty content).
    fn write_content(&mut self, content: &[u8]) -> (r: Result<u32, FatError>)
        requires
            params_ok(old(self).params()),
        ensures
            final(self).params() == old(self).params(),
            (r, final(self).image()) == content_stage(old(self).image(), old(self).params(), content@),
    {
        if content.len() == 0 {
            return Ok(0);
        }
        let cs = cluster_size_of(&self.bpb) as usize;
        assert(cs > 0) by (nonlinear_arith)
            requires
                self.bpb.bytes_per_sector > 0,
                self.bpb.sectors_per_cluster > 0,
                cs as nat == self.bpb.bytes_per_sector as nat * self.bpb.sectors_per_cluster as nat,
        ;
        let needed = div_ceil(content.len(), cs);
        assert(needed >= 1) by (nonlinear_arith)
            requires
                cs > 0,
                content@.len() > 0,
                needed as int == (content@.len() + cs - 1) as int / cs as int,
        ;
        let chain = match self.alloc_chain(needed) {
            Ok(c) => c,
            Err(e) => return Err(e),
        };
        match self.write_chain_data(&chain, content) {
            Ok(()) => {},
            Err(e) => return Err(e),
        }
        Ok(chain[0])
    }

    /// Writes the record of the file: at `existing_off` when the lookup
    /// found one, else in the first reusable record of the directory.
    fn place(
        &mut self,
        parent_cluster: u32,
        name: &Vec<u8>,
        ext: &Vec<u8>,
        existing_off: Option<usize>,
        first_cluster: u32,
        size: u32,
    ) -> (r: Result<(), FatError>)
        requires
            name@.len() == 8,
            ext@.len() == 3,
        ensures
            final(self).params() == old(self).params(),
            ({
                let hit: Option<(nat, Option<DirEntryView>)> = match existing_off {
                    Some(o) => Some((o as nat, None)),
                    None => None,
                };
                let pl = place_spec(
                    old(self).image(),
                    old(self).params(),
                    parent_cluster,
                    record_bytes(name@, ext@, first_cluster, size),
                    hit,
                );
                &&& final(self).image() == pl.1
                &&& match r {
                    Ok(_) => pl.0.is_none(),
                    Err(e) => pl.0 == Some(e),
                }
            }),
    {
        match existing_off {
            Some(off) => self.write_dir_entry_at_offset(off, name, ext, first_cluster, size),
            None => {
                let (free_off, was_end_marker, entry_end) = match find_free_dir_entry_slot(
                    &*self.disk,
                    &self.bpb,
                    parent_cluster,
                ) {
                    Ok(x) => x,
                    Err(e) => return Err(e),
                };
                match self.write_dir_entry_at_offset(free_off, name, ext, first_cluster, size) {
                    Ok(()) => {},
                    Err(e) => return Err(e),
                }
                let dl = self.disk.len();
                assert(dl == old(self).disk@.len());
                if was_end_marker && free_off + 32 < entry_end {
                    self.disk[free_off + 32] = 0;
                }
                Ok(())
            },
        }
    }

    /// Frees the chain that starts at `start`.
    fn free_chain(&mut self, start: u32) -> (r: Result<(), FatError>)
        ensures
            final(self).params() == old(self).params(),
            final(self).image() == free_chain_spec(old(self).image(), old(self).params(), start).1,
            match r {
                Ok(_) => free_chain_spec(old(self).image(), old(self).params(), start).0.is_none(),
                Err(e) => free_chain_spec(old(self).image(), old(self).params(), start).0 == Some(
                    e,
                ),
            },
    {
        if start < 2 {
            return Ok(());
        }
        let chain = match follow_chain(&*self.disk, &self.bpb, start, MAX_CHAIN) {
            Ok(c) => c,
            Err(e) => return Err(e),
        };
        let mut i: usize = 0;
        let mut err: Option<FatError> = None;
        while err.is_none() && i < chain.len()
            invariant
                self.bpb == old(self).bpb,
                i <= chain@.len(),
                follow_chain_spec(old(self).disk@, self.bpb, start, MAX_CHAIN as nat) == Ok::<
                    Seq<u32>,
                    FatError,
                >(chain@),
                start >= 2,
                err.is_none() ==> zero_from(old(self).disk@, self.bpb, chain@, 0) == zero_from(
                    self.disk@,
                    self.bpb,
                    chain@,
                    i as nat,
                ),
                err.is_some() ==> zero_from(old(self).disk@, self.bpb, chain@, 0) == (
                err,
                self.disk@,
                ),
            decreases chain@.len() - i + (if err.is_none() { 1int } else { 0int }),
        {
            match self.write_fat_entry_all(chain[i], 0) {
                Ok(()) => {
                    i += 1;
                },
                Err(e) => {
                    err = Some(e);
                },
            }
        }
        match err {
            None => Ok(()),
            Some(e) => Err(e),
        }
    }

    /// Takes `needed` free clusters, lowest first, and links them into a
    /// chain in every FAT copy.
    fn alloc_chain(&mut self, needed: usize) -> (r: Result<Vec<u32>, FatError>)
        ensures
            final(self).params() == old(self).params(),
            final(self).image() == alloc_chain_spec(
                old(self).image(),
                old(self).params(),
                needed as nat,
            ).1,
            match r {
                Ok(v) => alloc_chain_spec(old(self).image(), old(self).params(), needed as nat).0
                    == Ok::<Seq<u32>, FatError>(v@),
                Err(e) => alloc_chain_spec(old(self).image(), old(self).params(), needed as nat).0
                    == Err::<Seq<u32>, FatError>(e),
            },
    {
        if needed == 0 {
            return Ok(Vec::new());
        }
        let max_cl = match max_cluster_number(&*self.disk, &self.bpb) {
            Ok(m) => m,
            Err(e) => return Err(e),
        };
        let found = match scan_free(&*self.disk, &self.bpb, max_cl, needed) {
            Ok(f) => f,
            Err(e) => return Err(e),
        };
        if found.len() != needed {
            return Err(FatError::NoSpaceLeft);
        }
        let mut i: usize = 0;
        let mut fits = true;
        while fits && i < found.len()
            invariant
                self.bpb == old(self).bpb,
                i <= found@.len(),
                fits ==> link_from(old(self).disk@, self.bpb, found@, 0) == link_from(
                    self.disk@,
                    self.bpb,
                    found@,
                    i as nat,
                ),
                !fits ==> link_from(old(self).disk@, self.bpb, found@, 0) == (false, self.disk@),
            decreases found@.len() - i + (if fits { 1int } else { 0int }),
        {
            let v = if i + 1 < found.len() {
                found[i + 1]
            } else {
                FAT32_EOC
            };
            match self.write_fat_entry_all(found[i], v) {
                Ok(()) => {
                    i += 1;
                },
                Err(_) => {
                    fits = false;
                },
            }
        }
        if !fits {
            return Err(FatError::OutOfBounds);
        }
        Ok(found)
    }

    /// Writes `content` into the clusters of `chain`, zero-filling the tail
    /// of the last cluster used.
    fn write_chain_data(&mut self, chain: &Vec<u32>, content: &[u8]) -> (r: Result<(), FatError>)
        ensures
            final(self).params() == old(self).params(),
            final(self).image() == data_from(
                old(self).image(),
                old(self).params(),
                chain@,
                content@,
                0,
                0,
            ).1,
            match r {
                Ok(_) => data_from(old(self).image(), old(self).params(), chain@, content@, 0, 0).0.is_none(),
                Err(e) => data_from(old(self).image(), old(self).params(), chain@, content@, 0, 0).0
                    == Some(e),
            },
    {
        let cs = cluster_size_of(&self.bpb) as usize;
        let mut pos: usize = 0;
        let mut i: usize = 0;
        let mut err: Option<FatError> = None;
        let mut done = false;
        while !done && i < chain.len()
            invariant
                self.bpb == old(self).bpb,
                cs as nat == cluster_size(self.bpb),
                i <= chain@.len(),
                pos <= content@.len(),
                !done ==> err.is_none(),
                !done ==> data_from(old(self).disk@, self.bpb, chain@, content@, 0, 0) == data_from(
                    self.disk@,
                    self.bpb,
                    chain@,
                    content@,
                    i as nat,
                    pos as nat,
                ),
                done ==> data_from(old(self).disk@, self.bpb, chain@, content@, 0, 0) == (
                err,
                self.disk@,
                ),
            decreases chain@.len() - i + (if done { 0int } else { 1int }),
        {
            let ghost dd = self.disk@;
            match cluster_to_offset(&*self.disk, &self.bpb, chain[i]) {
                Err(e) => {
                    err = Some(e);
                    done = true;
                },
                Ok(off) => {
                    if cs > self.disk.len() - off {
                        err = Some(FatError::OutOfBounds);
                        done = true;
                    } else {
                        let end = if cs < content.len() - pos {
                            pos + cs
                        } else {
                            content.len()
                        };
                        fill_cluster_bytes(self.disk, off, content, pos, end, cs);
                        assert(data_from(dd, self.bpb, chain@, content@, i as nat, pos as nat) == (
                            if end >= content@.len() {
                                (None::<FatError>, self.disk@)
                            } else {
                                data_from(
                                    self.disk@,
                                    self.bpb,
                                    chain@,
                                    content@,
                                    (i + 1) as nat,
                                    end as nat,
                                )
                            }
                        ));
                        pos = end;
                        if pos >= content.len() {
                            done = true;
                        } else {
                            i += 1;
                        }
                    }
                },
            }
        }
        match err {
            None => Ok(()),
            Some(e) => Err(e),
        }
    }

    /// Writes a file record with the archive attribute at `offset`.
    fn write_dir_entry_at_offset(
        &mut self,
        offset: usize,
        name: &Vec<u8>,
        ext: &Vec<u8>,
        first_cluster: u32,
        size: u32,
    ) -> (r: Result<(), FatError>)
        requires
            name@.len() == 8,
            ext@.len() == 3,
        ensures
            final(self).params() == old(self).params(),
            match r {
                Ok(_) => offset + 32 <= old(self).image().len() && final(self).image() == put_record(
                    old(self).image(),
                    offset as nat,
                    record_bytes(name@, ext@, first_cluster, size),
                ),
                Err(e) => offset + 32 > old(self).image().len() && e == FatError::OutOfBounds
                    && final(self).image() == old(self).image(),
            },
    {
        if offset > self.disk.len() || self.disk.len() - offset < 32 {
            return Err(FatError::OutOfBounds);
        }
        let ghost rec = record_bytes(name@, ext@, first_cluster, size);
        let hi = first_cluster / 65536;
        let lo = first_cluster % 65536;
        let dl = self.disk.len();
        let mut k: usize = 0;
        while k < 32
            invariant
                dl == self.disk@.len(),
                offset + 32 <= self.disk@.len(),
                self.disk@.len() == old(self).disk@.len(),
                self.bpb == old(self).bpb,
                name@.len() == 8,
                ext@.len() == 3,
                rec == record_bytes(name@, ext@, first_cluster, size),
                hi as nat == first_cluster as nat / 65536,
                lo as nat == first_cluster as nat % 65536,
                k <= 32,
                forall|j: int|
                    0 <= j < offset || offset + 32 <= j < self.disk@.len() ==> self.disk@[j]
                        == old(self).disk@[j],
                forall|j: int| 0 <= j < k ==> #[trigger] self.disk@[offset + j] == rec[j],
            decreases 32 - k,
        {
            let b: u8 = if k < 8 {
                name[k]
            } else if k < 11 {
                ext[k - 8]
            } else if k == 11 {
                0x20
            } else if k == 20 {
                (hi % 256) as u8
            } else if k == 21 {
                (hi / 256) as u8
            } else if k == 26 {
                (lo % 256) as u8
            } else if k == 27 {
                (lo / 256) as u8
            } else if k == 28 {
                (size % 256) as u8
            } else if k == 29 {
                ((size / 256) % 256) as u8
            } else if k == 30 {
                ((size / 65536) % 256) as u8
            } else if k == 31 {
                (size / 16777216) as u8
            } else {
                0
            };
            assert(b == rec[k as int]);
            self.disk[offset + k] = b;
            k += 1;
        }
        proof {
            let f = put_record(old(self).disk@, offset as nat, rec);
            assert forall|j: int| 0 <= j < self.disk@.len() implies self.disk@[j] == f[j] by {
                if offset <= j < offset + 32 {
                    let t = j - offset;
                    assert(self.disk@[offset + t] == rec[t]);
                }
            }
            assert(self.disk@ =~= f);
        }
        Ok(())
    }

    /// Writes the entry of `cluster` (low 28 bits of `value`) into every
    /// FAT copy.
    fn write_fat_entry_all(&mut self, cluster: u32, value: u32) -> (r: Result<(), FatError>)
        ensures
            final(self).params() == old(self).params(),
            ({
                let w = fat_write_from(
                    old(self).image(),
                    old(self).params(),
                    cluster,
                    value % 0x1000_0000,
                    0,
                );
                &&& final(self).image() == w.1
                &&& match r {
                    Ok(_) => w.0,
                    Err(e) => !w.0 && e == FatError::OutOfBounds,
                }
            }),
    {
        let val = value & 0x0FFF_FFFF;
        assert(val == value % 0x1000_0000) by (bit_vector)
            requires
                val == value & 0x0FFF_FFFF,
        ;
        let fat0 = fat_start_of(&self.bpb);
        let fat_len = fat_bytes_of(&self.bpb);
        let n = self.bpb.num_fats;
        let mut i: u8 = 0;
        let mut fits = true;
        while fits && i < n
            invariant
                n == self.bpb.num_fats,
                self.bpb == old(self).bpb,
                fat0 as nat == fat_start(self.bpb),
                fat_len as nat == fat_bytes(self.bpb),
                fat0 < 0x1_0000_0000,
                fat_len < 0x1_0000_0000_0000,
                i <= n,
                fits ==> fat_write_from(old(self).disk@, self.bpb, cluster, val, 0)
                    == fat_write_from(self.disk@, self.bpb, cluster, val, i as nat),
                !fits ==> fat_write_from(old(self).disk@, self.bpb, cluster, val, 0) == (
                false,
                self.disk@,
                ),
            decreases n - i + (if fits { 1int } else { 0int }),
        {
            assert((i as nat * fat_len) < 0x100_0000_0000_0000) by (nonlinear_arith)
                requires
                    i < 0x100,
                    fat_len < 0x1_0000_0000_0000,
            ;
            let off = fat0 + i as u64 * fat_len + cluster as u64 * 4;
            assert(off as nat == fat_copy_offset(self.bpb, i as nat, cluster));
            if off + 4 > self.disk.len() as u64 {
                fits = false;
            } else {
                write_u32_le(self.disk, off as usize, val);
                i += 1;
            }
        }
        if !fits {
            return Err(FatError::OutOfBounds);
        }
        Ok(())
    }
}

} // verus!

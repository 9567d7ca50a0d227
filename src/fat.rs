//! The read side of a FAT32 volume held in memory: boot sector geometry,
//! cluster chains, directory listing, path lookup and file reads.
use vstd::prelude::*;
use vstd::string::*;

use crate::bytes::{le16, le32, read_u16_le, read_u32_le};
use crate::dir_entry::{DirEntry, DirEntryView, parse_spec};
use crate::names::{components, normalize_name, path_components, upper_seq, views};

verus! {

/// What can go wrong on a volume.
#[derive(Debug, Clone, Copy, PartialEq, Eq, Structural)]
pub enum FatError {
    /// The image is shorter than one boot sector.
    BufferTooSmall,
    /// The boot sector holds a zero count where a volume has none.
    NotFat32,
    /// An offset computed from the volume's structures lies outside the image.
    OutOfBounds,
    /// A cluster number below 2 where a chain needs a cluster.
    InvalidCluster,
    /// A directory where a file is needed.
    NotAFile,
    /// A file where a directory is needed.
    NotADirectory,
    /// The parent directory of a path does not exist.
    PathNotFound,
    /// A name that is not a valid 8.3 name.
    InvalidName,
    /// Not enough free clusters, or no reusable record in the directory.
    NoSpaceLeft,
    /// A malformed path, such as one that is not absolute.
    Other,
}

/// The value written to end a chain.
pub const FAT32_EOC: u32 = 0x0FFF_FFFF;

/// The smallest entry value that ends a chain.
pub const FAT32_EOC_MIN: u32 = 0x0FFF_FFF8;

/// How many clusters a chain walk visits at most.
pub const MAX_CHAIN: usize = 4096;

/// The geometry fields of the boot sector.
#[derive(Debug, Clone, Copy, PartialEq, Eq, Structural)]
pub struct BpbParams {
    pub bytes_per_sector: u16,
    pub sectors_per_cluster: u8,
    pub reserved_sectors: u16,
    pub num_fats: u8,
    pub sectors_per_fat: u32,
    pub root_cluster: u32,
}

/// The geometry fields read from sector 0 at their fixed offsets.
pub open spec fn bpb_of(d: Seq<u8>) -> BpbParams {
    BpbParams {
        bytes_per_sector: le16(d, 11) as u16,
        sectors_per_cluster: d[13],
        reserved_sectors: le16(d, 14) as u16,
        num_fats: d[16],
        sectors_per_fat: le32(d, 36) as u32,
        root_cluster: le32(d, 44) as u32,
    }
}

/// The geometry of an image, or why it has none.
pub open spec fn parse_bpb_spec(d: Seq<u8>) -> Result<BpbParams, FatError> {
    if d.len() < 512 {
        Err(FatError::BufferTooSmall)
    } else {
        let p = bpb_of(d);
        if p.bytes_per_sector == 0 || p.sectors_per_cluster == 0 || p.num_fats == 0
            || p.sectors_per_fat == 0 {
            Err(FatError::NotFat32)
        } else {
            Ok(p)
        }
    }
}

pub open spec fn cluster_size(p: BpbParams) -> nat {
    p.bytes_per_sector as nat * p.sectors_per_cluster as nat
}

pub open spec fn fat_start(p: BpbParams) -> nat {
    p.reserved_sectors as nat * p.bytes_per_sector as nat
}

pub open spec fn fat_bytes(p: BpbParams) -> nat {
    p.sectors_per_fat as nat * p.bytes_per_sector as nat
}

pub open spec fn data_start(p: BpbParams) -> nat {
    fat_start(p) + p.num_fats as nat * fat_bytes(p)
}

/// The FAT entry of cluster `c` in the first table, low 28 bits.
pub open spec fn fat_entry_spec(d: Seq<u8>, p: BpbParams, c: u32) -> Result<u32, FatError> {
    let off = fat_start(p) + c as nat * 4;
    if off + 4 > d.len() {
        Err(FatError::OutOfBounds)
    } else {
        Ok((le32(d, off as int) % 0x1000_0000) as u32)
    }
}

/// Byte offset of cluster `c` in the image.
pub open spec fn cluster_offset_spec(d: Seq<u8>, p: BpbParams, c: u32) -> Result<nat, FatError> {
    if c < 2 {
        Err(FatError::InvalidCluster)
    } else {
        let off = data_start(p) + (c - 2) as nat * cluster_size(p);
        if off >= d.len() {
            Err(FatError::OutOfBounds)
        } else {
            Ok(off)
        }
    }
}

/// The bytes of cluster `c`.
pub open spec fn read_cluster_spec(d: Seq<u8>, p: BpbParams, c: u32) -> Result<Seq<u8>, FatError> {
    match cluster_offset_spec(d, p, c) {
        Err(e) => Err(e),
        Ok(off) => if off + cluster_size(p) > d.len() {
            Err(FatError::OutOfBounds)
        } else {
            Ok(d.subrange(off as int, (off + cluster_size(p)) as int))
        },
    }
}

/// `pre` put in front of a successful result.
pub open spec fn prepend<T>(pre: Seq<T>, r: Result<Seq<T>, FatError>) -> Result<Seq<T>, FatError> {
    match r {
        Ok(s) => Ok(pre + s),
        Err(e) => Err(e),
    }
}

/// The chain from `cur`, visiting at most `fuel` clusters: each visited
/// cluster, up to the one whose entry ends the chain. An entry below 2 is an
/// error.
pub open spec fn chain_from(d: Seq<u8>, p: BpbParams, cur: u32, fuel: nat) -> Result<
    Seq<u32>,
    FatError,
>
    decreases fuel,
{
    if fuel == 0 {
        Ok(seq![])
    } else {
        match fat_entry_spec(d, p, cur) {
            Err(e) => Err(e),
            Ok(n) => if n >= FAT32_EOC_MIN {
                Ok(seq![cur])
            } else if n < 2 {
                Err(FatError::InvalidCluster)
            } else {
                prepend(seq![cur], chain_from(d, p, n, (fuel - 1) as nat))
            },
        }
    }
}

/// The cluster chain that starts at `start`, at most `max` clusters long.
pub open spec fn follow_chain_spec(d: Seq<u8>, p: BpbParams, start: u32, max: nat) -> Result<
    Seq<u32>,
    FatError,
> {
    if start < 2 {
        Err(FatError::InvalidCluster)
    } else {
        chain_from(d, p, start, max)
    }
}

/// The entries of the 32-byte records of `data` from record `i` on, and
/// whether a terminator (first byte 0) ended them.
pub open spec fn scan_records(data: Seq<u8>, i: nat) -> (Seq<DirEntryView>, bool)
    decreases data.len() - i * 32,
{
    if (i + 1) * 32 > data.len() {
        (seq![], false)
    } else {
        let rec = data.subrange((i * 32) as int, (i * 32 + 32) as int);
        if rec[0] == 0 {
            (seq![], true)
        } else {
            let rest = scan_records(data, i + 1);
            (
                match parse_spec(rec) {
                    Some(e) => seq![e] + rest.0,
                    None => rest.0,
                },
                rest.1,
            )
        }
    }
}

/// The entries held in the clusters of `chain`, up to the first terminator.
pub open spec fn dir_entries_of_chain(d: Seq<u8>, p: BpbParams, chain: Seq<u32>) -> Result<
    Seq<DirEntryView>,
    FatError,
>
    decreases chain.len(),
{
    if chain.len() == 0 {
        Ok(seq![])
    } else {
        match read_cluster_spec(d, p, chain[0]) {
            Err(e) => Err(e),
            Ok(data) => {
                let s = scan_records(data, 0);
                if s.1 {
                    Ok(s.0)
                } else {
                    prepend(s.0, dir_entries_of_chain(d, p, chain.drop_first()))
                }
            },
        }
    }
}

/// The entries of the directory whose chain starts at `c`.
pub open spec fn list_dir_spec(d: Seq<u8>, p: BpbParams, c: u32) -> Result<
    Seq<DirEntryView>,
    FatError,
> {
    match follow_chain_spec(d, p, c, MAX_CHAIN as nat) {
        Err(e) => Err(e),
        Ok(ch) => dir_entries_of_chain(d, p, ch),
    }
}

/// The first entry whose upper-cased name is `target`.
pub open spec fn find_entry(es: Seq<DirEntryView>, target: Seq<char>) -> Option<DirEntryView>
    decreases es.len(),
{
    if es.len() == 0 {
        None
    } else if upper_seq(es[0].name) == target {
        Some(es[0])
    } else {
        find_entry(es.drop_first(), target)
    }
}

/// Walks `comps` down from the directory at `cur`; `last` is the entry
/// reached so far.
pub open spec fn walk(
    d: Seq<u8>,
    p: BpbParams,
    cur: u32,
    comps: Seq<Seq<char>>,
    last: Option<DirEntryView>,
) -> Result<Option<DirEntryView>, FatError>
    decreases comps.len(),
{
    if comps.len() == 0 {
        Ok(last)
    } else {
        match list_dir_spec(d, p, cur) {
            Err(e) => Err(e),
            Ok(es) => match find_entry(es, upper_seq(comps[0])) {
                None => Ok(None),
                Some(e) => walk(d, p, e.first_cluster, comps.drop_first(), Some(e)),
            },
        }
    }
}

/// The entry an absolute path names: `Ok(None)` for `/` and for a path
/// that leads nowhere, `Other` for a path that does not start with `/`.
pub open spec fn open_path_spec(d: Seq<u8>, p: BpbParams, path: Seq<char>) -> Result<
    Option<DirEntryView>,
    FatError,
> {
    if path.len() == 0 || path[0] != '/' {
        Err(FatError::Other)
    } else if path.len() == 1 {
        Ok(None)
    } else {
        walk(d, p, p.root_cluster, path_components(path), None)
    }
}

/// The first `remaining` bytes held by the clusters of `chain`, or fewer
/// when the chain ends first.
pub open spec fn read_chain(d: Seq<u8>, p: BpbParams, chain: Seq<u32>, remaining: nat) -> Result<
    Seq<u8>,
    FatError,
>
    decreases chain.len(),
{
    if remaining == 0 || chain.len() == 0 {
        Ok(seq![])
    } else {
        match read_cluster_spec(d, p, chain[0]) {
            Err(e) => Err(e),
            Ok(data) => {
                let take = if remaining < cluster_size(p) {
                    remaining
                } else {
                    cluster_size(p)
                };
                prepend(
                    data.subrange(0, take as int),
                    read_chain(d, p, chain.drop_first(), (remaining - take) as nat),
                )
            },
        }
    }
}

/// The contents of the file that `e` describes.
pub open spec fn read_file_spec(d: Seq<u8>, p: BpbParams, e: DirEntryView) -> Result<
    Seq<u8>,
    FatError,
> {
    if e.attrs.directory {
        Err(FatError::NotAFile)
    } else if e.size == 0 {
        Ok(seq![])
    } else if e.first_cluster < 2 {
        Err(FatError::InvalidCluster)
    } else {
        match follow_chain_spec(d, p, e.first_cluster, MAX_CHAIN as nat) {
            Err(err) => Err(err),
            Ok(ch) => read_chain(d, p, ch, e.size as nat),
        }
    }
}

/// The entry views of a list of entries.
pub open spec fn entry_views(v: Seq<DirEntry>) -> Seq<DirEntryView> {
    v.map_values(|e: DirEntry| e@)
}

/// The view of an optional entry.
pub open spec fn opt_view(o: Option<DirEntry>) -> Option<DirEntryView> {
    match o {
        Some(e) => Some(e@),
        None => None,
    }
}

/// Reads the boot sector's geometry and rejects what cannot be a volume.
pub fn parse_bpb(disk: &[u8]) -> (r: Result<BpbParams, FatError>)
    ensures
        r == parse_bpb_spec(disk@),
{
    if disk.len() < 512 {
        return Err(FatError::BufferTooSmall);
    }
    let bytes_per_sector = read_u16_le(disk, 11);
    let sectors_per_cluster = disk[13];
    let reserved_sectors = read_u16_le(disk, 14);
    let num_fats = disk[16];
    let sectors_per_fat = read_u32_le(disk, 36);
    let root_cluster = read_u32_le(disk, 44);
    if bytes_per_sector == 0 || sectors_per_cluster == 0 || num_fats == 0 {
        return Err(FatError::NotFat32);
    }
    if sectors_per_fat == 0 {
        return Err(FatError::NotFat32);
    }
    Ok(
        BpbParams {
            bytes_per_sector,
            sectors_per_cluster,
            reserved_sectors,
            num_fats,
            sectors_per_fat,
            root_cluster,
        },
    )
}

pub(crate) fn cluster_size_of(p: &BpbParams) -> (r: u64)
    ensures
        r as nat == cluster_size(*p),
        r < 0x100_0000,
{
    assert((p.bytes_per_sector as nat * p.sectors_per_cluster as nat) < 0x100_0000) by (
    nonlinear_arith)
        requires
            p.bytes_per_sector < 0x1_0000,
            p.sectors_per_cluster < 0x100,
    ;
    p.bytes_per_sector as u64 * p.sectors_per_cluster as u64
}

pub(crate) fn fat_start_of(p: &BpbParams) -> (r: u64)
    ensures
        r as nat == fat_start(*p),
        r < 0x1_0000_0000,
{
    assert((p.reserved_sectors as nat * p.bytes_per_sector as nat) < 0x1_0000_0000) by (
    nonlinear_arith)
        requires
            p.bytes_per_sector < 0x1_0000,
            p.reserved_sectors < 0x1_0000,
    ;
    p.reserved_sectors as u64 * p.bytes_per_sector as u64
}

pub(crate) fn fat_bytes_of(p: &BpbParams) -> (r: u64)
    ensures
        r as nat == fat_bytes(*p),
        r < 0x1_0000_0000_0000,
{
    assert((p.sectors_per_fat as nat * p.bytes_per_sector as nat) < 0x1_0000_0000_0000) by (
    nonlinear_arith)
        requires
            p.bytes_per_sector < 0x1_0000,
            p.sectors_per_fat < 0x1_0000_0000,
    ;
    p.sectors_per_fat as u64 * p.bytes_per_sector as u64
}

pub(crate) fn data_start_of(p: &BpbParams) -> (r: u64)
    ensures
        r as nat == data_start(*p),
        r < 0x100_0000_0000_0000,
{
    let fb = fat_bytes_of(p);
    assert((p.num_fats as nat * fb) < 0xFF_0000_0000_0000) by (nonlinear_arith)
        requires
            p.num_fats < 0x100,
            fb < 0x1_0000_0000_0000,
    ;
    fat_start_of(p) + p.num_fats as u64 * fb
}

/// Reads the FAT entry of `cluster` from the first table.
pub(crate) fn read_fat_entry(d: &[u8], p: &BpbParams, cluster: u32) -> (r: Result<u32, FatError>)
    ensures
        r == fat_entry_spec(d@, *p, cluster),
{
    let off = fat_start_of(p) + cluster as u64 * 4;
    if off + 4 > d.len() as u64 {
        return Err(FatError::OutOfBounds);
    }
    let v = read_u32_le(d, off as usize);
    let m = v & 0x0FFF_FFFF;
    assert(m == v % 0x1000_0000) by (bit_vector)
        requires
            m == v & 0x0FFF_FFFF,
    ;
    Ok(m)
}

/// Byte offset of `cluster` in the image.
pub(crate) fn cluster_to_offset(d: &[u8], p: &BpbParams, cluster: u32) -> (r: Result<usize, FatError>)
    ensures
        match r {
            Ok(o) => cluster_offset_spec(d@, *p, cluster) == Ok::<nat, FatError>(o as nat),
            Err(e) => cluster_offset_spec(d@, *p, cluster) == Err::<nat, FatError>(e),
        },
{
    if cluster < 2 {
        return Err(FatError::InvalidCluster);
    }
    let cs = cluster_size_of(p);
    let idx = (cluster - 2) as u64;
    assert(idx * cs < 0x100_0000_0000_0000) by (nonlinear_arith)
        requires
            idx < 0x1_0000_0000,
            cs < 0x100_0000,
    ;
    let off = data_start_of(p) + idx * cs;
    if off >= d.len() as u64 {
        return Err(FatError::OutOfBounds);
    }
    Ok(off as usize)
}

/// The bytes of `cluster`.
pub(crate) fn read_cluster<'b>(d: &'b [u8], p: &BpbParams, cluster: u32) -> (r: Result<
    &'b [u8],
    FatError,
>)
    ensures
        match r {
            Ok(s) => read_cluster_spec(d@, *p, cluster) == Ok::<Seq<u8>, FatError>(s@),
            Err(e) => read_cluster_spec(d@, *p, cluster) == Err::<Seq<u8>, FatError>(e),
        },
{
    let off = match cluster_to_offset(d, p, cluster) {
        Ok(o) => o,
        Err(e) => return Err(e),
    };
    let cs = cluster_size_of(p);
    if cs > (d.len() - off) as u64 {
        return Err(FatError::OutOfBounds);
    }
    Ok(&d[off..off + cs as usize])
}

/// Follows the chain from `start`, visiting at most `max` clusters.
pub(crate) fn follow_chain(d: &[u8], p: &BpbParams, start: u32, max: usize) -> (r: Result<
    Vec<u32>,
    FatError,
>)
    ensures
        match r {
            Ok(v) => follow_chain_spec(d@, *p, start, max as nat) == Ok::<Seq<u32>, FatError>(v@),
            Err(e) => follow_chain_spec(d@, *p, start, max as nat) == Err::<Seq<u32>, FatError>(e),
        },
{
    if start < 2 {
        return Err(FatError::InvalidCluster);
    }
    let mut chain: Vec<u32> = Vec::new();
    let mut current = start;
    let mut k: usize = 0;
    assert(chain@ + seq![] =~= Seq::<u32>::empty());
    while k < max
        invariant
            k <= max,
            start >= 2,
            chain_from(d@, *p, start, max as nat) == prepend(
                chain@,
                chain_from(d@, *p, current, (max - k) as nat),
            ),
        decreases max - k,
    {
        let ghost before = chain@;
        let ghost fuel = (max - k) as nat;
        chain.push(current);
        let next = match read_fat_entry(d, p, current) {
            Ok(n) => n,
            Err(e) => {
                assert(chain_from(d@, *p, current, fuel) == Err::<Seq<u32>, FatError>(e));
                return Err(e);
            },
        };
        if next >= FAT32_EOC_MIN {
            assert(chain_from(d@, *p, current, fuel) == Ok::<Seq<u32>, FatError>(seq![current]));
            assert(before + seq![current] =~= chain@);
            return Ok(chain);
        }
        if next < 2 {
            return Err(FatError::InvalidCluster);
        }
        proof {
            let rest = chain_from(d@, *p, next, (max - k - 1) as nat);
            match rest {
                Ok(s) => {
                    assert(before + (seq![current] + s) =~= chain@ + s);
                },
                Err(_) => {},
            }
        }
        current = next;
        k += 1;
    }
    assert(chain@ + seq![] =~= chain@);
    Ok(chain)
}

/// Lists the entries of the directory whose chain starts at `start`.
pub(crate) fn list_dir_cluster(d: &[u8], p: &BpbParams, start: u32) -> (r: Result<
    Vec<DirEntry>,
    FatError,
>)
    ensures
        match r {
            Ok(v) => list_dir_spec(d@, *p, start) == Ok::<Seq<DirEntryView>, FatError>(
                entry_views(v@),
            ),
            Err(e) => list_dir_spec(d@, *p, start) == Err::<Seq<DirEntryView>, FatError>(e),
        },
{
    let chain = match follow_chain(d, p, start, MAX_CHAIN) {
        Ok(c) => c,
        Err(e) => return Err(e),
    };
    let mut entries: Vec<DirEntry> = Vec::new();
    let mut j: usize = 0;
    assert(chain@.skip(0) =~= chain@);
    assert(entry_views(entries@) + Seq::<DirEntryView>::empty() =~= Seq::<DirEntryView>::empty());
    while j < chain.len()
        invariant
            j <= chain@.len(),
            follow_chain_spec(d@, *p, start, MAX_CHAIN as nat) == Ok::<Seq<u32>, FatError>(chain@),
            dir_entries_of_chain(d@, *p, chain@) == prepend(
                entry_views(entries@),
                dir_entries_of_chain(d@, *p, chain@.skip(j as int)),
            ),
        decreases chain@.len() - j,
    {
        let ghost rest = chain@.skip(j as int);
        assert(rest[0] == chain@[j as int]);
        assert(rest.drop_first() =~= chain@.skip(j + 1));
        let data = match read_cluster(d, p, chain[j]) {
            Ok(s) => s,
            Err(e) => return Err(e),
        };
        let ghost before = entry_views(entries@);
        let ghost seen: Seq<DirEntryView> = seq![];
        let dl = data.len();
        assert(dl as nat == data@.len());
        let nrec = dl / 32;
        let mut i: usize = 0;
        assert(seen + scan_records(data@, 0).0 =~= scan_records(data@, 0).0);
        assert(before + seen =~= before);
        while i < nrec
            invariant
                i <= nrec == data@.len() / 32,
                dl as nat == data@.len(),
                j < chain@.len(),
                follow_chain_spec(d@, *p, start, MAX_CHAIN as nat) == Ok::<Seq<u32>, FatError>(chain@),
                rest == chain@.skip(j as int),
                read_cluster_spec(d@, *p, chain@[j as int]) == Ok::<Seq<u8>, FatError>(data@),
                dir_entries_of_chain(d@, *p, chain@) == prepend(before, dir_entries_of_chain(d@, *p, rest)),
                entry_views(entries@) == before + seen,
                scan_records(data@, 0).0 == seen + scan_records(data@, i as nat).0,
                scan_records(data@, 0).1 == scan_records(data@, i as nat).1,
            decreases nrec - i,
        {
            assert(i * 32 + 32 <= data@.len()) by (nonlinear_arith)
                requires
                    i < nrec,
                    nrec == data@.len() / 32,
            ;
            assert(i * 32 + 32 <= dl);
            let rec = &data[i * 32..i * 32 + 32];
            assert(rec@ == data@.subrange((i as nat * 32) as int, (i as nat * 32 + 32) as int));
            if rec[0] == 0 {
                assert(scan_records(data@, i as nat).0 =~= Seq::<DirEntryView>::empty());
                assert(scan_records(data@, i as nat).1);
                assert(seen + Seq::<DirEntryView>::empty() =~= seen);
                assert(scan_records(data@, 0) == (seen, true));
                assert(rest.len() > 0);
                assert(read_cluster_spec(d@, *p, rest[0]) == Ok::<Seq<u8>, FatError>(data@));
                assert(dir_entries_of_chain(d@, *p, rest) == Ok::<Seq<DirEntryView>, FatError>(
                    seen,
                ));
                return Ok(entries);
            }
            let ghost nxt = scan_records(data@, (i + 1) as nat);
            match DirEntry::parse(rec) {
                Some(e) => {
                    let ghost old_views = entry_views(entries@);
                    entries.push(e);
                    assert(entry_views(entries@) =~= old_views.push(e@));
                    proof {
                        assert(seen + (seq![e@] + nxt.0) =~= seen.push(e@) + nxt.0);
                        assert(before + seen.push(e@) =~= (before + seen).push(e@));
                        seen = seen.push(e@);
                    }
                },
                None => {},
            }
            i += 1;
        }
        assert(scan_records(data@, i as nat).0 =~= Seq::<DirEntryView>::empty());
        assert(seen + Seq::<DirEntryView>::empty() =~= seen);
        proof {
            match dir_entries_of_chain(d@, *p, chain@.skip(j + 1)) {
                Ok(t) => {
                    assert(before + (seen + t) =~= (before + seen) + t);
                },
                Err(_) => {},
            }
        }
        j += 1;
    }
    assert(entry_views(entries@) + Seq::<DirEntryView>::empty() =~= entry_views(entries@));
    Ok(entries)
}

/// Appends the first `n` bytes of `data` to `out`.
pub(crate) fn append_prefix(out: &mut Vec<u8>, data: &[u8], n: usize)
    requires
        n <= data@.len(),
    ensures
        final(out)@ == old(out)@ + data@.subrange(0, n as int),
{
    let ghost before = out@;
    let mut k: usize = 0;
    while k < n
        invariant
            k <= n <= data@.len(),
            out@ == before + data@.subrange(0, k as int),
        decreases n - k,
    {
        out.push(data[k]);
        assert(data@.subrange(0, k + 1) =~= data@.subrange(0, k as int).push(data@[k as int]));
        k += 1;
    }
}

/// Index of the first entry whose upper-cased name is `target`.
fn find_index(entries: &Vec<DirEntry>, target: &String) -> (r: Option<usize>)
    ensures
        match r {
            Some(m) => m < entries@.len() && find_entry(entry_views(entries@), target@) == Some(
                entries@[m as int]@,
            ),
            None => find_entry(entry_views(entries@), target@).is_none(),
        },
{
    let ghost ev = entry_views(entries@);
    let mut m: usize = 0;
    assert(ev.skip(0) =~= ev);
    while m < entries.len()
        invariant
            m <= entries@.len(),
            ev == entry_views(entries@),
            find_entry(ev, target@) == find_entry(ev.skip(m as int), target@),
        decreases entries@.len() - m,
    {
        assert(ev.skip(m as int)[0] == entries@[m as int]@);
        assert(ev.skip(m as int).drop_first() =~= ev.skip(m + 1));
        let nm = normalize_name(entries[m].name.as_str());
        if nm == *target {
            return Some(m);
        }
        m += 1;
    }
    assert(ev.skip(m as int).len() == 0);
    None
}

/// Reads the file that `entry` describes.
pub(crate) fn read_entry(d: &[u8], p: &BpbParams, entry: &DirEntry) -> (r: Result<Vec<u8>, FatError>)
    ensures
        match r {
            Ok(v) => read_file_spec(d@, *p, entry@) == Ok::<Seq<u8>, FatError>(v@),
            Err(e) => read_file_spec(d@, *p, entry@) == Err::<Seq<u8>, FatError>(e),
        },
{
    if !entry.is_file() {
        return Err(FatError::NotAFile);
    }
    if entry.size == 0 {
        return Ok(Vec::new());
    }
    if entry.first_cluster < 2 {
        return Err(FatError::InvalidCluster);
    }
    let cs = cluster_size_of(p);
    let chain = match follow_chain(d, p, entry.first_cluster, MAX_CHAIN) {
        Ok(c) => c,
        Err(e) => return Err(e),
    };
    let mut remaining: u64 = entry.size as u64;
    let mut out: Vec<u8> = Vec::new();
    let mut j: usize = 0;
    assert(chain@.skip(0) =~= chain@);
    assert(out@ + Seq::<u8>::empty() =~= Seq::<u8>::empty());
    assert(read_file_spec(d@, *p, entry@) == read_chain(d@, *p, chain@, entry.size as nat));
    while j < chain.len()
        invariant
            j <= chain@.len(),
            cs as nat == cluster_size(*p),
            cs < 0x100_0000,
            read_file_spec(d@, *p, entry@) == read_chain(d@, *p, chain@, entry.size as nat),
            read_chain(d@, *p, chain@, entry.size as nat) == prepend(
                out@,
                read_chain(d@, *p, chain@.skip(j as int), remaining as nat),
            ),
        decreases chain@.len() - j,
    {
        if remaining == 0 {
            assert(out@ + Seq::<u8>::empty() =~= out@);
            return Ok(out);
        }
        let ghost rest = chain@.skip(j as int);
        assert(rest[0] == chain@[j as int]);
        assert(rest.drop_first() =~= chain@.skip(j + 1));
        let data = match read_cluster(d, p, chain[j]) {
            Ok(s) => s,
            Err(e) => return Err(e),
        };
        let take: u64 = if remaining < cs {
            remaining
        } else {
            cs
        };
        let ghost before = out@;
        append_prefix(&mut out, data, take as usize);
        proof {
            match read_chain(d@, *p, chain@.skip(j + 1), (remaining - take) as nat) {
                Ok(t) => {
                    assert(before + (data@.subrange(0, take as int) + t) =~= out@ + t);
                },
                Err(_) => {},
            }
        }
        remaining = remaining - take;
        j += 1;
    }
    assert(out@ + Seq::<u8>::empty() =~= out@);
    Ok(out)
}

/// Resolves an absolute path, upper-casing each component and each name it
/// is compared with.
pub(crate) fn resolve(d: &[u8], p: &BpbParams, path: &str) -> (r: Result<Option<DirEntry>, FatError>)
    ensures
        match r {
            Ok(o) => open_path_spec(d@, *p, path@) == Ok::<Option<DirEntryView>, FatError>(
                opt_view(o),
            ),
            Err(e) => open_path_spec(d@, *p, path@) == Err::<Option<DirEntryView>, FatError>(e),
        },
{
    let len = path.unicode_len();
    if len == 0 || path.get_char(0) != '/' {
        return Err(FatError::Other);
    }
    if len == 1 {
        return Ok(None);
    }
    let comps = components(path);
    let ghost cv = views(comps@);
    let mut current = p.root_cluster;
    let mut last: Option<DirEntry> = None;
    let mut k: usize = 0;
    assert(cv.skip(0) =~= cv);
    while k < comps.len()
        invariant
            k <= comps@.len(),
            cv == views(comps@),
            open_path_spec(d@, *p, path@) == walk(d@, *p, current, cv.skip(k as int), opt_view(last)),
        decreases comps@.len() - k,
    {
        let ghost rest = cv.skip(k as int);
        assert(rest[0] == comps@[k as int]@);
        assert(rest.drop_first() =~= cv.skip(k + 1));
        let target = normalize_name(comps[k].as_str());
        let mut entries = match list_dir_cluster(d, p, current) {
            Ok(v) => v,
            Err(e) => return Err(e),
        };
        let m = match find_index(&entries, &target) {
            Some(m) => m,
            None => return Ok(None),
        };
        let e = entries.remove(m);
        current = e.first_cluster;
        last = Some(e);
        k += 1;
    }
    assert(cv.skip(k as int).len() == 0);
    Ok(last)
}

/// A read-only view of a volume held in memory.
#[derive(Debug)]
pub struct Fat32<'a> {
    disk: &'a [u8],
    bpb: BpbParams,
}

impl<'a> Fat32<'a> {
    /// The image bytes.
    pub closed spec fn image(&self) -> Seq<u8> {
        self.disk@
    }

    /// The geometry read from the image when the view was made.
    pub closed spec fn params(&self) -> BpbParams {
        self.bpb
    }

    /// A view on `disk` with geometry already read from it.
    pub(crate) fn from_parts(disk: &'a [u8], bpb: BpbParams) -> (r: Self)
        ensures
            r.image() == disk@,
            r.params() == bpb,
    {
        Fat32 { disk, bpb }
    }

    /// Opens a view on `disk`, reading its boot sector.
    pub fn new(disk: &'a [u8]) -> (r: Result<Self, FatError>)
        ensures
            match r {
                Ok(fs) => parse_bpb_spec(disk@) == Ok::<BpbParams, FatError>(fs.params())
                    && fs.image() == disk@,
                Err(e) => parse_bpb_spec(disk@) == Err::<BpbParams, FatError>(e),
            },
    {
        match parse_bpb(disk) {
            Ok(bpb) => Ok(Fat32 { disk, bpb }),
            Err(e) => Err(e),
        }
    }

    /// The entries of the root directory.
    pub fn list_root(&self) -> (r: Result<Vec<DirEntry>, FatError>)
        ensures
            match r {
                Ok(v) => list_dir_spec(self.image(), self.params(), self.params().root_cluster)
                    == Ok::<Seq<DirEntryView>, FatError>(entry_views(v@)),
                Err(e) => list_dir_spec(self.image(), self.params(), self.params().root_cluster)
                    == Err::<Seq<DirEntryView>, FatError>(e),
            },
    {
        list_dir_cluster(self.disk, &self.bpb, self.bpb.root_cluster)
    }

    /// The entries of the directory at an absolute path (`/` is the root).
    pub fn list_dir_path(&self, path: &str) -> (r: Result<Vec<DirEntry>, FatError>)
        ensures
            match r {
                Ok(v) => list_dir_path_spec(self.image(), self.params(), path@) == Ok::<
                    Seq<DirEntryView>,
                    FatError,
                >(entry_views(v@)),
                Err(e) => list_dir_path_spec(self.image(), self.params(), path@) == Err::<
                    Seq<DirEntryView>,
                    FatError,
                >(e),
            },
    {
        if path.unicode_len() == 1 && path.get_char(0) == '/' {
            proof {
                reveal_strlit("/");
                assert(path@ =~= seq!['/']);
            }
            return self.list_root();
        }
        let entry = match self.open_path(path) {
            Ok(Some(e)) => e,
            Ok(None) => return Err(FatError::PathNotFound),
            Err(e) => return Err(e),
        };
        if !entry.is_dir() {
            return Err(FatError::NotADirectory);
        }
        list_dir_cluster(self.disk, &self.bpb, entry.first_cluster)
    }

    /// The contents of the file at an absolute path: `Ok(None)` when
    /// nothing is there, `NotAFile` for a directory.
    pub fn read_file_by_path(&self, path: &str) -> (r: Result<Option<Vec<u8>>, FatError>)
        ensures
            match r {
                Ok(Some(v)) => read_path_spec(self.image(), self.params(), path@) == Ok::<
                    Option<Seq<u8>>,
                    FatError,
                >(Some(v@)),
                Ok(None) => read_path_spec(self.image(), self.params(), path@) == Ok::<
                    Option<Seq<u8>>,
                    FatError,
                >(None),
                Err(e) => read_path_spec(self.image(), self.params(), path@) == Err::<
                    Option<Seq<u8>>,
                    FatError,
                >(e),
            },
    {
        let entry = match self.open_path(path) {
            Ok(Some(e)) => e,
            Ok(None) => return Ok(None),
            Err(e) => return Err(e),
        };
        if !entry.is_file() {
            return Err(FatError::NotAFile);
        }
        match self.read_file(&entry) {
            Ok(v) => Ok(Some(v)),
            Err(e) => Err(e),
        }
    }

    /// The entry an absolute path names; `Ok(None)` for `/` or when a
    /// component is missing. Names compare without regard to ASCII case.
    pub fn open_path(&self, path: &str) -> (r: Result<Option<DirEntry>, FatError>)
        ensures
            match r {
                Ok(o) => open_path_spec(self.image(), self.params(), path@) == Ok::<
                    Option<DirEntryView>,
                    FatError,
                >(opt_view(o)),
                Err(e) => open_path_spec(self.image(), self.params(), path@) == Err::<
                    Option<DirEntryView>,
                    FatError,
                >(e),
            },
    {
        resolve(self.disk, &self.bpb, path)
    }

    /// The contents of the file `entry` describes.
    pub fn read_file(&self, entry: &DirEntry) -> (r: Result<Vec<u8>, FatError>)
        ensures
            match r {
                Ok(v) => read_file_spec(self.image(), self.params(), entry@) == Ok::<
                    Seq<u8>,
                    FatError,
                >(v@),
                Err(e) => read_file_spec(self.image(), self.params(), entry@) == Err::<
                    Seq<u8>,
                    FatError,
                >(e),
            },
    {
        read_entry(self.disk, &self.bpb, entry)
    }
}

/// What listing a directory by path gives.
pub open spec fn list_dir_path_spec(d: Seq<u8>, p: BpbParams, path: Seq<char>) -> Result<
    Seq<DirEntryView>,
    FatError,
> {
    if path == seq!['/'] {
        list_dir_spec(d, p, p.root_cluster)
    } else {
        match open_path_spec(d, p, path) {
            Err(e) => Err(e),
            Ok(None) => Err(FatError::PathNotFound),
            Ok(Some(e)) => if !e.attrs.directory {
                Err(FatError::NotADirectory)
            } else {
                list_dir_spec(d, p, e.first_cluster)
            },
        }
    }
}

/// What reading a file by path gives.
pub open spec fn read_path_spec(d: Seq<u8>, p: BpbParams, path: Seq<char>) -> Result<
    Option<Seq<u8>>,
    FatError,
> {
    match open_path_spec(d, p, path) {
        Err(e) => Err(e),
        Ok(None) => Ok(None),
        Ok(Some(e)) => if e.attrs.directory {
            Err(FatError::NotAFile)
        } else {
            match read_file_spec(d, p, e) {
                Ok(v) => Ok(Some(v)),
                Err(err) => Err(err),
            }
        },
    }
}

} // verus!

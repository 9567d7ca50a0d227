//! Properties of the volume engine that relate several of its operations.
use vstd::prelude::*;

use crate::bytes::{le32, le32_bytes, lemma_le32_round_trip};
use crate::bytes::le16;
use crate::dir_entry::{DirEntryView, attrs_of, parse_spec, short_name_of};
use crate::fat::{
    BpbParams, FatError, MAX_CHAIN, cluster_offset_spec, data_start, fat_bytes, fat_entry_spec,
    fat_start, follow_chain_spec, chain_from, read_chain, cluster_size, list_dir_path_spec, open_path_spec, read_cluster_spec,
    read_file_spec, read_path_spec, walk,
};
use crate::fat_mut::{
    fat_copy_offset, fat_write_from, find_named_spec, free_chain_spec, named_from, named_in,
    params_ok, parent_cluster_spec, place_spec, put_record, record_bytes, set4, write_spec,
    zero_from, le16_bytes, free_scan, link_from, content_stage, data_from, fill_cluster, max_cluster_spec,
};
use crate::names::div_ceil_spec;
use crate::names::{
    comps_acc, encode_spec, name_parts, path_components, short_char_ok, split_parent_spec, upper,
    upper_seq,
};

verus! {

/// Listing a file as a directory fails with `NotADirectory`; reading a
/// directory as a file fails with `NotAFile`, by path or by entry.
pub proof fn lemma_type_enforcement(d: Seq<u8>, p: BpbParams, path: Seq<char>, e: DirEntryView)
    requires
        open_path_spec(d, p, path) == Ok::<Option<DirEntryView>, FatError>(Some(e)),
    ensures
        !e.attrs.directory ==> list_dir_path_spec(d, p, path) == Err::<Seq<DirEntryView>, FatError>(
            FatError::NotADirectory,
        ),
        e.attrs.directory ==> read_path_spec(d, p, path) == Err::<Option<Seq<u8>>, FatError>(
            FatError::NotAFile,
        ),
        e.attrs.directory ==> read_file_spec(d, p, e) == Err::<Seq<u8>, FatError>(
            FatError::NotAFile,
        ),
{
    if path == seq!['/'] {
        assert(path.len() == 1);
    }
}

/// Writing under a parent directory that does not exist fails with
/// `PathNotFound` and leaves the image alone.
pub proof fn lemma_parent_must_exist(
    d: Seq<u8>,
    p: BpbParams,
    path: Seq<char>,
    content: Seq<u8>,
    parent: Seq<char>,
    name: Seq<char>,
)
    requires
        path.len() > 1,
        path[0] == '/',
        split_parent_spec(path) == Some((parent, name)),
        encode_spec(name).is_some(),
        parent != seq!['/'],
        open_path_spec(d, p, parent) == Ok::<Option<DirEntryView>, FatError>(None),
    ensures
        write_spec(d, p, path, content) == (Some(FatError::PathNotFound), d),
{
    if path == seq!['/'] {
        assert(path.len() == 1);
    }
}

/// A name that is not a valid 8.3 name is refused: a base longer than 8
/// characters, an extension longer than 3, more than one dot, or a
/// character outside ASCII.
pub proof fn lemma_name_validation(s: Seq<char>)
    requires
        name_parts(s).0.len() > 8 || name_parts(s).1.len() > 3 || name_parts(s).0.contains('.')
            || exists|i: int| 0 <= i < s.len() && (s[i] as u32) >= 128,
    ensures
        encode_spec(s).is_none(),
{
    let (b, x) = name_parts(s);
    crate::names::lemma_last_index_bounds(s, '.');
    if exists|i: int| 0 <= i < s.len() && (s[i] as u32) >= 128 {
        let i = choose|i: int| 0 <= i < s.len() && (s[i] as u32) >= 128;
        let dt = crate::names::last_index_of(s, '.');
        if dt < 0 {
            assert(b[i] == s[i]);
            assert(!short_char_ok(b[i]));
        } else if i < dt {
            assert(b[i] == s[i]);
            assert(!short_char_ok(b[i]));
        } else if i > dt {
            assert(x[i - dt - 1] == s[i]);
            assert(!short_char_ok(x[i - dt - 1]));
        }
    }
}

/// A path whose name is not a valid 8.3 name is refused with
/// `InvalidName` and the image is left alone.
pub proof fn lemma_invalid_name_rejected(
    d: Seq<u8>,
    p: BpbParams,
    path: Seq<char>,
    content: Seq<u8>,
    parent: Seq<char>,
    name: Seq<char>,
)
    requires
        path.len() > 1,
        path[0] == '/',
        split_parent_spec(path) == Some((parent, name)),
        encode_spec(name).is_none(),
    ensures
        write_spec(d, p, path, content) == (Some(FatError::InvalidName), d),
{
    if path == seq!['/'] {
        assert(path.len() == 1);
    }
}

/// Writing FAT copies `i..` touches nothing before copy `i`'s slot and
/// leaves each of those copies' slots holding `v`.
proof fn lemma_fat_write_from(d: Seq<u8>, p: BpbParams, c: u32, v: u32, i: nat)
    requires
        c as nat * 4 + 4 <= fat_bytes(p),
        fat_write_from(d, p, c, v, i).0,
    ensures
        fat_write_from(d, p, c, v, i).1.len() == d.len(),
        forall|j: nat, m: int|
            i <= j < p.num_fats && 0 <= m < 4 ==> #[trigger] fat_write_from(d, p, c, v, i).1[
                fat_copy_offset(p, j, c) + m] == le32_bytes(v)[m],
        forall|k: int|
            0 <= k < fat_copy_offset(p, i, c) ==> #[trigger] fat_write_from(d, p, c, v, i).1[k]
                == d[k],
    decreases p.num_fats - i,
{
    if i < p.num_fats {
        let off = fat_copy_offset(p, i, c);
        let d2 = set4(d, off as int, le32_bytes(v));
        lemma_fat_write_from(d2, p, c, v, i + 1);
        let r = fat_write_from(d, p, c, v, i).1;
        assert(r == fat_write_from(d2, p, c, v, i + 1).1);
        assert(fat_copy_offset(p, i + 1, c) == off + fat_bytes(p)) by (nonlinear_arith)
            requires
                off == fat_copy_offset(p, i, c),
        ;
        assert forall|j: nat, m: int| i <= j < p.num_fats && 0 <= m < 4 implies #[trigger] r[
            fat_copy_offset(p, j, c) + m] == le32_bytes(v)[m] by {
            if j == i {
                assert(off + m < fat_copy_offset(p, i + 1, c));
                assert(r[off + m] == d2[off + m]);
            }
        }
    }
}

/// Every FAT copy sees an entry written through the mirrored write: after
/// a complete write of `v` for cluster `c`, each copy's entry for `c`
/// reads `v`.
pub proof fn lemma_fat_mirror(d: Seq<u8>, p: BpbParams, c: u32, v: u32, i: nat)
    requires
        c as nat * 4 + 4 <= fat_bytes(p),
        fat_write_from(d, p, c, v, 0).0,
        i < p.num_fats,
    ensures
        le32(fat_write_from(d, p, c, v, 0).1, fat_copy_offset(p, i, c) as int) == v as nat,
{
    lemma_fat_write_from(d, p, c, v, 0);
    let r = fat_write_from(d, p, c, v, 0).1;
    let off = fat_copy_offset(p, i, c) as int;
    assert(r[off + 0] == le32_bytes(v)[0]);
    assert(r[off + 1] == le32_bytes(v)[1]);
    assert(r[off + 2] == le32_bytes(v)[2]);
    assert(r[off + 3] == le32_bytes(v)[3]);
    if off + 4 > r.len() {
        lemma_fat_copy_fits(d, p, c, v, 0, i);
    }
    lemma_le32_round_trip(r, off as int, v);
}

/// A complete write fits every copy's slot in the image.
proof fn lemma_fat_copy_fits(d: Seq<u8>, p: BpbParams, c: u32, v: u32, i: nat, j: nat)
    requires
        fat_write_from(d, p, c, v, i).0,
        i <= j < p.num_fats,
    ensures
        fat_copy_offset(p, j, c) + 4 <= d.len(),
    decreases p.num_fats - i,
{
    if i < j {
        let d2 = set4(d, fat_copy_offset(p, i, c) as int, le32_bytes(v));
        lemma_fat_copy_fits(d2, p, c, v, i + 1, j);
    }
}

/// Each sequence of a list upper-cased.
pub open spec fn upper_all(cs: Seq<Seq<char>>) -> Seq<Seq<char>> {
    cs.map_values(|c: Seq<char>| upper_seq(c))
}

proof fn lemma_upper_slash(c: char)
    ensures
        (upper(c) == '/') == (c == '/'),
{
    if 'a' <= c && c <= 'z' {
        let u = ((c as u32 - 32) as u8) as char;
        assert(u as u32 == c as u32 - 32);
        assert('A' <= u && u <= 'Z');
    }
}

proof fn lemma_comps_acc_upper(s: Seq<char>, acc: Seq<Seq<char>>, cur: Seq<char>)
    ensures
        comps_acc(upper_seq(s), upper_all(acc), upper_seq(cur)) == upper_all(comps_acc(s, acc, cur)),
    decreases s.len(),
{
    if s.len() == 0 {
        assert(upper_seq(s).len() == 0);
        assert(upper_all(acc.push(cur)) =~= upper_all(acc).push(upper_seq(cur)));
    } else {
        let us = upper_seq(s);
        assert(us[0] == upper(s[0]));
        assert(us.drop_first() =~= upper_seq(s.drop_first()));
        lemma_upper_slash(s[0]);
        if s[0] == '/' {
            assert(upper_all(acc.push(cur)) =~= upper_all(acc).push(upper_seq(cur)));
            assert(upper_seq(Seq::<char>::empty()) =~= Seq::<char>::empty());
            if cur.len() > 0 {
                lemma_comps_acc_upper(s.drop_first(), acc.push(cur), seq![]);
            } else {
                lemma_comps_acc_upper(s.drop_first(), acc, seq![]);
            }
        } else {
            assert(upper_seq(cur.push(s[0])) =~= upper_seq(cur).push(upper(s[0])));
            lemma_comps_acc_upper(s.drop_first(), acc, cur.push(s[0]));
        }
    }
}

proof fn lemma_walk_upper(
    d: Seq<u8>,
    p: BpbParams,
    cur: u32,
    ca: Seq<Seq<char>>,
    cb: Seq<Seq<char>>,
    last: Option<DirEntryView>,
)
    requires
        upper_all(ca) == upper_all(cb),
    ensures
        walk(d, p, cur, ca, last) == walk(d, p, cur, cb, last),
    decreases ca.len(),
{
    assert(ca.len() == upper_all(ca).len());
    assert(cb.len() == upper_all(cb).len());
    if ca.len() > 0 {
        assert(upper_seq(ca[0]) == upper_all(ca)[0]);
        assert(upper_seq(cb[0]) == upper_all(cb)[0]);
        assert(upper_all(ca.drop_first()) =~= upper_all(ca).drop_first());
        assert(upper_all(cb.drop_first()) =~= upper_all(cb).drop_first());
        match crate::fat::list_dir_spec(d, p, cur) {
            Ok(es) => match crate::fat::find_entry(es, upper_seq(ca[0])) {
                Some(e) => {
                    lemma_walk_upper(d, p, e.first_cluster, ca.drop_first(), cb.drop_first(), Some(e));
                },
                None => {},
            },
            Err(_) => {},
        }
    }
}

/// Lookup ignores ASCII case: two paths that differ only in the case of
/// their letters resolve to the same entry.
pub proof fn lemma_open_path_case_insensitive(d: Seq<u8>, p: BpbParams, a: Seq<char>, b: Seq<char>)
    requires
        upper_seq(a) == upper_seq(b),
    ensures
        open_path_spec(d, p, a) == open_path_spec(d, p, b),
{
    assert(a.len() == upper_seq(a).len());
    assert(b.len() == upper_seq(b).len());
    if a.len() > 0 {
        assert(upper_seq(a)[0] == upper(a[0]));
        assert(upper_seq(b)[0] == upper(b[0]));
        lemma_upper_slash(a[0]);
        lemma_upper_slash(b[0]);
    }
    lemma_comps_acc_upper(a, seq![], seq![]);
    lemma_comps_acc_upper(b, seq![], seq![]);
    assert(upper_all(Seq::<Seq<char>>::empty()) =~= Seq::<Seq<char>>::empty());
    assert(upper_seq(Seq::<char>::empty()) =~= Seq::<char>::empty());
    lemma_walk_upper(d, p, p.root_cluster, path_components(a), path_components(b), None);
}

/// Byte offset of cluster `c`'s entry in the first FAT copy.
pub open spec fn slot0(p: BpbParams, c: u32) -> int {
    (fat_start(p) + c as nat * 4) as int
}

/// Every cluster of `ch` has its entry inside one FAT copy.
pub open spec fn slots_fit(p: BpbParams, ch: Seq<u32>) -> bool {
    forall|j: int| 0 <= j < ch.len() ==> (#[trigger] ch[j]) as nat * 4 + 4 <= fat_bytes(p)
}

/// Writing cluster `c`'s entries leaves the first-copy entry of every other
/// cluster alone.
proof fn lemma_fat_write_frame(d: Seq<u8>, p: BpbParams, c: u32, v: u32, i: nat, c2: u32)
    requires
        c as nat * 4 + 4 <= fat_bytes(p),
        c2 as nat * 4 + 4 <= fat_bytes(p),
        slot0(p, c2) + 4 <= d.len(),
        c2 != c,
    ensures
        fat_write_from(d, p, c, v, i).1.len() == d.len(),
        forall|m: int|
            0 <= m < 4 ==> #[trigger] fat_write_from(d, p, c, v, i).1[slot0(p, c2) + m] == d[slot0(
                p,
                c2,
            ) + m],
    decreases p.num_fats - i,
{
    if i < p.num_fats && fat_copy_offset(p, i, c) + 4 <= d.len() {
        let off = fat_copy_offset(p, i, c);
        let d2 = set4(d, off as int, le32_bytes(v));
        lemma_fat_write_frame(d2, p, c, v, i + 1, c2);
        assert forall|m: int| 0 <= m < 4 implies #[trigger] d2[slot0(p, c2) + m] == d[slot0(p, c2)
            + m] by {
            let k = slot0(p, c2) + m;
            assert(k != off && k != off + 1 && k != off + 2 && k != off + 3) by (nonlinear_arith)
                requires
                    k == fat_start(p) + c2 * 4 + m,
                    off == fat_start(p) + i * fat_bytes(p) + c * 4,
                    0 <= m < 4,
                    c * 4 + 4 <= fat_bytes(p),
                    c2 * 4 + 4 <= fat_bytes(p),
                    c2 != c,
            ;
        }
    }
}

/// Freeing the clusters `ch[i..]` leaves each of their first-copy entries
/// 0, and keeps 0 every such entry that was 0 already.
proof fn lemma_zero_from(d: Seq<u8>, p: BpbParams, ch: Seq<u32>, i: nat)
    requires
        slots_fit(p, ch),
        p.num_fats > 0,
        zero_from(d, p, ch, i).0.is_none(),
    ensures
        zero_from(d, p, ch, i).1.len() == d.len(),
        forall|j: int|
            i <= j < ch.len() ==> le32(zero_from(d, p, ch, i).1, slot0(p, #[trigger] ch[j])) == 0
                && slot0(p, ch[j]) + 4 <= d.len(),
        forall|c: u32|
            c as nat * 4 + 4 <= fat_bytes(p) && slot0(p, c) + 4 <= d.len() && le32(d, slot0(p, c))
                == 0 ==> le32(
                zero_from(d, p, ch, i).1,
                #[trigger] slot0(p, c),
            ) == 0,
    decreases ch.len() - i,
{
    if i < ch.len() {
        let c = ch[i as int];
        let w = fat_write_from(d, p, c, 0, 0);
        assert(c as nat * 4 + 4 <= fat_bytes(p));
        lemma_fat_mirror(d, p, c, 0, 0);
        lemma_fat_write_from(d, p, c, 0, 0);
        lemma_fat_copy_fits(d, p, c, 0, 0, 0);
        assert(fat_copy_offset(p, 0, c) == slot0(p, c));
        lemma_zero_from(w.1, p, ch, i + 1);
        let r = zero_from(d, p, ch, i).1;
        assert(r == zero_from(w.1, p, ch, i + 1).1);
        assert forall|c2: u32|
            c2 as nat * 4 + 4 <= fat_bytes(p) && slot0(p, c2) + 4 <= d.len() && le32(
                d,
                slot0(p, c2),
            ) == 0 implies le32(
            r,
            #[trigger] slot0(p, c2),
        ) == 0 by {
            if c2 != c {
                lemma_fat_write_frame(d, p, c, 0, 0, c2);
                let k = slot0(p, c2);
                assert(w.1[k + 0] == d[k + 0]);
                assert(w.1[k + 1] == d[k + 1]);
                assert(w.1[k + 2] == d[k + 2]);
                assert(w.1[k + 3] == d[k + 3]);
                assert(le32(w.1, k) == le32(d, k));
            }
        }
    }
}

proof fn lemma_named_in_offset(data: Seq<u8>, off: nat, i: nat, n: Seq<u8>, x: Seq<u8>)
    ensures
        match named_in(data, off, i, n, x) {
            Some(Some((o, _))) => o >= off,
            _ => true,
        },
    decreases data.len() - i * 32,
{
    if (i + 1) * 32 <= data.len() {
        lemma_named_in_offset(data, off, i + 1, n, x);
    }
}

proof fn lemma_named_from_offset(
    d: Seq<u8>,
    p: BpbParams,
    ch: Seq<u32>,
    j: nat,
    n: Seq<u8>,
    x: Seq<u8>,
)
    ensures
        match named_from(d, p, ch, j, n, x) {
            Ok(Some((o, _))) => o >= data_start(p),
            _ => true,
        },
    decreases ch.len() - j,
{
    if j < ch.len() {
        match read_cluster_spec(d, p, ch[j as int]) {
            Ok(data) => {
                let off = cluster_offset_spec(d, p, ch[j as int])->Ok_0;
                lemma_named_in_offset(data, off, 0, n, x);
                lemma_named_from_offset(d, p, ch, j + 1, n, x);
            },
            Err(_) => {},
        }
    }
}

/// Overwriting an existing file with nothing frees its old chain: when the
/// write succeeds, every cluster of the chain the file had reads as free
/// in the FAT. (The clusters' entries must lie inside one FAT copy.)
pub proof fn lemma_empty_overwrite_frees_old_chain(
    d: Seq<u8>,
    p: BpbParams,
    path: Seq<char>,
    parent: Seq<char>,
    name: Seq<char>,
    pc: u32,
    off: nat,
    e: DirEntryView,
    ch: Seq<u32>,
)
    requires
        params_ok(p),
        path.len() > 1,
        path[0] == '/',
        split_parent_spec(path) == Some((parent, name)),
        encode_spec(name).is_some(),
        parent_cluster_spec(d, p, parent) == Ok::<u32, FatError>(pc),
        find_named_spec(d, p, pc, encode_spec(name)->Some_0.0, encode_spec(name)->Some_0.1) == Ok::<
            Option<(nat, Option<DirEntryView>)>,
            FatError,
        >(Some((off, Some(e)))),
        follow_chain_spec(d, p, e.first_cluster, MAX_CHAIN as nat) == Ok::<Seq<u32>, FatError>(ch),
        slots_fit(p, ch),
        write_spec(d, p, path, seq![]).0.is_none(),
    ensures
        forall|j: int|
            0 <= j < ch.len() ==> fat_entry_spec(write_spec(d, p, path, seq![]).1, p, #[trigger] ch[j])
                == Ok::<u32, FatError>(0),
{
    if path == seq!['/'] {
        assert(path.len() == 1);
    }
    let (n, x) = encode_spec(name)->Some_0;
    let hit = Some((off, Some(e)));
    assert(!e.attrs.directory);
    assert(e.first_cluster >= 2) by {
        if e.first_cluster < 2 {
            assert(follow_chain_spec(d, p, e.first_cluster, MAX_CHAIN as nat).is_err());
        }
    }
    let fr = free_chain_spec(d, p, e.first_cluster);
    assert(fr == zero_from(d, p, ch, 0));
    lemma_zero_from(d, p, ch, 0);
    let d1 = fr.1;
    let rec = record_bytes(n, x, 0, 0);
    assert(write_spec(d, p, path, seq![]) == place_spec(d1, p, pc, rec, hit));
    assert(off + 32 <= d1.len());
    let d2 = put_record(d1, off, rec);
    assert(write_spec(d, p, path, seq![]).1 == d2);
    match follow_chain_spec(d, p, pc, MAX_CHAIN as nat) {
        Ok(pch) => lemma_named_from_offset(d, p, pch, 0, n, x),
        Err(_) => {},
    }
    assert(off >= data_start(p));
    assert(data_start(p) >= fat_start(p) + fat_bytes(p)) by (nonlinear_arith)
        requires
            p.num_fats >= 1,
            data_start(p) == fat_start(p) + p.num_fats * fat_bytes(p),
    ;
    assert forall|j: int| 0 <= j < ch.len() implies fat_entry_spec(d2, p, #[trigger] ch[j])
        == Ok::<u32, FatError>(0) by {
        let k = slot0(p, ch[j]);
        assert(ch[j] as nat * 4 + 4 <= fat_bytes(p));
        assert(k + 4 <= off);
        assert(d2[k] == d1[k] && d2[k + 1] == d1[k + 1] && d2[k + 2] == d1[k + 2] && d2[k + 3]
            == d1[k + 3]);
        assert(le32(d2, k) == le32(d1, k));
    }
}

/// Clusters found free are distinct, rising, and between `c` and `max`.
proof fn lemma_free_scan(d: Seq<u8>, p: BpbParams, c: nat, max: nat, needed: nat)
    requires
        max < 0x1_0000_0000,
    ensures
        match free_scan(d, p, c, max, needed) {
            Ok(f) => f.len() <= needed && (forall|i: int|
                0 <= i < f.len() ==> c <= #[trigger] f[i] <= max) && (forall|i: int, j: int|
                0 <= i < j < f.len() ==> #[trigger] f[i] < #[trigger] f[j]),
            Err(_) => true,
        },
    decreases max + 1 - c,
{
    if needed != 0 && c <= max {
        lemma_free_scan(d, p, c + 1, max, (needed - 1) as nat);
        lemma_free_scan(d, p, c + 1, max, needed);
        match fat_entry_spec(d, p, c as u32) {
            Ok(v) => if v == 0 {
                match free_scan(d, p, c + 1, max, (needed - 1) as nat) {
                    Ok(t) => {
                        let f = seq![c as u32] + t;
                        assert forall|i: int| 0 <= i < f.len() implies c <= #[trigger] f[i] <= max by {
                            if i > 0 {
                                assert(f[i] == t[i - 1]);
                            }
                        }
                        assert forall|i: int, j: int| 0 <= i < j < f.len() implies #[trigger] f[i]
                            < #[trigger] f[j] by {
                            assert(f[j] == t[j - 1]);
                            if i > 0 {
                                assert(f[i] == t[i - 1]);
                            }
                        }
                    },
                    Err(_) => {},
                }
            },
            Err(_) => {},
        }
    }
}

/// The entry that linking gives `f[j]`: the next cluster, or the end of the
/// chain for the last one.
pub open spec fn link_value(f: Seq<u32>, j: int) -> u32 {
    if j + 1 < f.len() {
        f[j + 1]
    } else {
        crate::fat::FAT32_EOC
    }
}

/// Linking `f[i..]` leaves each of their first-copy entries holding its
/// link, and the entry of any cluster outside `f[i..]` alone.
proof fn lemma_link_from(d: Seq<u8>, p: BpbParams, f: Seq<u32>, i: nat)
    requires
        slots_fit(p, f),
        p.num_fats > 0,
        forall|a: int, b: int| 0 <= a < b < f.len() ==> #[trigger] f[a] < #[trigger] f[b],
        forall|j: int| 0 <= j < f.len() ==> (#[trigger] f[j]) < 0x1000_0000,
        link_from(d, p, f, i).0,
    ensures
        link_from(d, p, f, i).1.len() == d.len(),
        forall|j: int|
            i <= j < f.len() ==> slot0(p, #[trigger] f[j]) + 4 <= d.len() && le32(
                link_from(d, p, f, i).1,
                slot0(p, f[j]),
            ) == link_value(f, j) as nat,
        forall|c: u32, m: int|
            c as nat * 4 + 4 <= fat_bytes(p) && slot0(p, c) + 4 <= d.len() && 0 <= m < 4 && (forall|
                j: int,
            | i <= j < f.len() ==> f[j] != c) ==> #[trigger] link_from(d, p, f, i).1[slot0(p, c) + m]
                == d[slot0(p, c) + m],
    decreases f.len() - i,
{
    if i < f.len() {
        let c = f[i as int];
        let v = link_value(f, i as int);
        assert(v % 0x1000_0000 == v);
        let w = fat_write_from(d, p, c, v, 0);
        assert(c as nat * 4 + 4 <= fat_bytes(p));
        lemma_fat_mirror(d, p, c, v, 0);
        lemma_fat_write_from(d, p, c, v, 0);
        lemma_fat_copy_fits(d, p, c, v, 0, 0);
        assert(fat_copy_offset(p, 0, c) == slot0(p, c));
        lemma_link_from(w.1, p, f, i + 1);
        let r = link_from(d, p, f, i).1;
        assert(r == link_from(w.1, p, f, i + 1).1);
        assert forall|j: int| i <= j < f.len() implies slot0(p, #[trigger] f[j]) + 4 <= d.len()
            && le32(r, slot0(p, f[j])) == link_value(f, j) as nat by {
            if j == i {
                let k = slot0(p, c);
                assert forall|t: int| i + 1 <= t < f.len() implies f[t] != c by {
                    assert(f[i as int] < f[t]);
                }
                assert(r[k + 0] == w.1[k + 0]);
                assert(r[k + 1] == w.1[k + 1]);
                assert(r[k + 2] == w.1[k + 2]);
                assert(r[k + 3] == w.1[k + 3]);
                assert(le32(r, k) == le32(w.1, k));
            }
        }
        assert forall|c2: u32, m: int|
            c2 as nat * 4 + 4 <= fat_bytes(p) && slot0(p, c2) + 4 <= d.len() && 0 <= m < 4 && (forall|
                j: int,
            | i <= j < f.len() ==> f[j] != c2) implies #[trigger] r[slot0(p, c2) + m] == d[slot0(
            p,
            c2,
        ) + m] by {
            assert(f[i as int] != c2);
            lemma_fat_write_frame(d, p, c, v, 0, c2);
            assert(w.1[slot0(p, c2) + m] == d[slot0(p, c2) + m]);
        }
    }
}

/// With each entry of `f` holding its link, the chain from `f[i]` is
/// `f[i..]`.
proof fn lemma_chain_of_links(d: Seq<u8>, p: BpbParams, f: Seq<u32>, i: nat, fuel: nat)
    requires
        i < f.len(),
        f.len() - i <= fuel,
        forall|j: int| 0 <= j < f.len() ==> 2 <= (#[trigger] f[j]) < crate::fat::FAT32_EOC_MIN,
        forall|j: int|
            i <= j < f.len() ==> slot0(p, #[trigger] f[j]) + 4 <= d.len() && le32(d, slot0(p, f[j]))
                == link_value(f, j) as nat,
    ensures
        chain_from(d, p, f[i as int], fuel) == Ok::<Seq<u32>, FatError>(f.skip(i as int)),
    decreases f.len() - i,
{
    let c = f[i as int];
    assert(fat_entry_spec(d, p, c) == Ok::<u32, FatError>(link_value(f, i as int)));
    if i + 1 < f.len() {
        lemma_chain_of_links(d, p, f, i + 1, (fuel - 1) as nat);
        assert(seq![c] + f.skip((i + 1) as int) =~= f.skip(i as int));
    } else {
        assert(seq![c] =~= f.skip(i as int));
    }
}

/// What the data write leaves in the cluster that holds piece `j` of
/// `content`: that piece, then zeros up to the cluster size.
pub open spec fn piece(content: Seq<u8>, cs: nat, j: nat) -> Seq<u8> {
    let end = if (j + 1) * cs < content.len() {
        (j + 1) * cs
    } else {
        content.len()
    };
    content.subrange((j * cs) as int, end as int) + Seq::new((cs - (end - j * cs)) as nat, |k: int| 0u8)
}

/// Clusters `a != b` of the data area do not overlap.
proof fn lemma_regions_disjoint(p: BpbParams, a: u32, b: u32)
    requires
        a >= 2,
        b >= 2,
        a != b,
    ensures
        data_start(p) + (a - 2) as nat * cluster_size(p) + cluster_size(p) <= data_start(p) + (b
            - 2) as nat * cluster_size(p) || data_start(p) + (b - 2) as nat * cluster_size(p)
            + cluster_size(p) <= data_start(p) + (a - 2) as nat * cluster_size(p),
{
    let cs = cluster_size(p);
    if a < b {
        assert((a - 2) as nat * cs + cs <= (b - 2) as nat * cs) by (nonlinear_arith)
            requires
                a < b,
                a >= 2,
        ;
    } else {
        assert((b - 2) as nat * cs + cs <= (a - 2) as nat * cs) by (nonlinear_arith)
            requires
                b < a,
                b >= 2,
        ;
    }
}

/// The data write leaves the bytes before the data area alone, puts each
/// piece in its cluster, and leaves clusters outside `f[i..]` alone.
proof fn lemma_data_from(d: Seq<u8>, p: BpbParams, f: Seq<u32>, content: Seq<u8>, i: nat)
    requires
        cluster_size(p) > 0,
        forall|a: int, b: int| 0 <= a < b < f.len() ==> #[trigger] f[a] < #[trigger] f[b],
        forall|j: int| 0 <= j < f.len() ==> 2 <= #[trigger] f[j],
        i * cluster_size(p) <= content.len(),
        data_from(d, p, f, content, i, i * cluster_size(p)).0.is_none(),
    ensures
        ({
            let r = data_from(d, p, f, content, i, i * cluster_size(p)).1;
            &&& r.len() == d.len()
            &&& forall|k: int| 0 <= k < data_start(p) ==> #[trigger] r[k] == d[k]
            &&& forall|j: int|
                i <= j < f.len() && j * cluster_size(p) < content.len() ==> read_cluster_spec(
                    r,
                    p,
                    #[trigger] f[j],
                ) == Ok::<Seq<u8>, FatError>(piece(content, cluster_size(p), j as nat))
            &&& forall|c: u32|
                c >= 2 && (forall|j: int| i <= j < f.len() ==> f[j] != c) && #[trigger]
                read_cluster_spec(d, p, c).is_ok() ==> read_cluster_spec(r, p, c)
                    == read_cluster_spec(d, p, c)
        }),
    decreases f.len() - i,
{
    let cs = cluster_size(p);
    let pos = i * cs;
    if i < f.len() {
        let c = f[i as int];
        let off = cluster_offset_spec(d, p, c)->Ok_0;
        assert(off == data_start(p) + (c - 2) as nat * cs);
        let end = if pos + cs < content.len() {
            pos + cs
        } else {
            content.len()
        };
        let chunk = content.subrange(pos as int, end as int);
        let d2 = fill_cluster(d, off, chunk, cs);
        assert((i + 1) * cs == i * cs + cs) by (nonlinear_arith);
        assert(off + cs <= d.len());
        assert(chunk.len() <= cs);
        assert(d2.len() == d.len());
        assert(d2.subrange(off as int, (off + cs) as int) =~= piece(content, cs, i));
        assert(read_cluster_spec(d2, p, c) == Ok::<Seq<u8>, FatError>(piece(content, cs, i)));
        assert forall|k: int| 0 <= k < data_start(p) implies #[trigger] d2[k] == d[k] by {
            assert(k < off);
        }
        assert forall|c2: u32|
            c2 >= 2 && c2 != c && #[trigger] read_cluster_spec(d, p, c2).is_ok() implies read_cluster_spec(
            d2,
            p,
            c2,
        ) == read_cluster_spec(d, p, c2) by {
            lemma_regions_disjoint(p, c, c2);
            let off2 = data_start(p) + (c2 - 2) as nat * cs;
            assert(d2.subrange(off2 as int, (off2 + cs) as int) =~= d.subrange(
                off2 as int,
                (off2 + cs) as int,
            ));
        }
        if end >= content.len() {
            assert forall|j: int|
                i <= j < f.len() && j * cs < content.len() implies read_cluster_spec(
                d2,
                p,
                #[trigger] f[j],
            ) == Ok::<Seq<u8>, FatError>(piece(content, cs, j as nat)) by {
                if j > i {
                    assert(j * cs >= (i + 1) * cs) by (nonlinear_arith)
                        requires
                            j > i,
                            cs > 0,
                    ;
                }
            }
        } else {
            lemma_data_from(d2, p, f, content, i + 1);
            assert(data_from(d, p, f, content, i, pos) == data_from(
                d2,
                p,
                f,
                content,
                i + 1,
                (i + 1) * cs,
            ));
            let r = data_from(d2, p, f, content, i + 1, (i + 1) * cs).1;
            assert forall|t: int| i + 1 <= t < f.len() implies f[t] != c by {
                assert(f[i as int] < f[t]);
            }
            assert(read_cluster_spec(d2, p, c).is_ok());
            assert(read_cluster_spec(r, p, c) == read_cluster_spec(d2, p, c));
            assert forall|j: int|
                i <= j < f.len() && j * cs < content.len() implies read_cluster_spec(
                r,
                p,
                #[trigger] f[j],
            ) == Ok::<Seq<u8>, FatError>(piece(content, cs, j as nat)) by {}
            assert forall|c2: u32|
                c2 >= 2 && (forall|j: int| i <= j < f.len() ==> f[j] != c2) && #[trigger]
                read_cluster_spec(d, p, c2).is_ok() implies read_cluster_spec(r, p, c2)
                == read_cluster_spec(d, p, c2) by {
                assert(f[i as int] != c2);
                assert(read_cluster_spec(d2, p, c2) == read_cluster_spec(d, p, c2));
                assert(read_cluster_spec(d2, p, c2).is_ok());
            }
        }
    }
}

/// Reading `remaining` bytes along `f[i..]` gives `content` from byte
/// `i * cs` on, when each cluster holds its piece.
proof fn lemma_read_pieces(d: Seq<u8>, p: BpbParams, f: Seq<u32>, content: Seq<u8>, i: nat)
    requires
        cluster_size(p) > 0,
        i * cluster_size(p) <= content.len(),
        content.len() <= f.len() * cluster_size(p),
        forall|j: int|
            i <= j < f.len() && j * cluster_size(p) < content.len() ==> read_cluster_spec(
                d,
                p,
                #[trigger] f[j],
            ) == Ok::<Seq<u8>, FatError>(piece(content, cluster_size(p), j as nat)),
    ensures
        read_chain(d, p, f.skip(i as int), (content.len() - i * cluster_size(p)) as nat) == Ok::<
            Seq<u8>,
            FatError,
        >(content.subrange((i * cluster_size(p)) as int, content.len() as int)),
    decreases f.len() - i,
{
    let cs = cluster_size(p);
    let rem = (content.len() - i * cs) as nat;
    if rem == 0 {
        assert(content.subrange((i * cs) as int, content.len() as int) =~= Seq::<u8>::empty());
    } else {
        assert(i < f.len()) by (nonlinear_arith)
            requires
                i * cs < content.len(),
                content.len() <= f.len() * cs,
                cs > 0,
        ;
        let fs = f.skip(i as int);
        assert(fs[0] == f[i as int]);
        assert(fs.drop_first() =~= f.skip((i + 1) as int));
        let take = if rem < cs {
            rem
        } else {
            cs
        };
        assert((i + 1) * cs == i * cs + cs) by (nonlinear_arith);
        assert(piece(content, cs, i).subrange(0, take as int) =~= content.subrange(
            (i * cs) as int,
            (i * cs + take) as int,
        ));
        if take == cs {
            lemma_read_pieces(d, p, f, content, i + 1);
            assert((content.len() - (i + 1) * cs) as nat == (rem - take) as nat);
            assert(content.subrange((i * cs) as int, (i * cs + take) as int) + content.subrange(
                ((i + 1) * cs) as int,
                content.len() as int,
            ) =~= content.subrange((i * cs) as int, content.len() as int));
        } else {
            assert(read_chain(d, p, f.skip((i + 1) as int), 0) == Ok::<Seq<u8>, FatError>(seq![]));
            assert(content.subrange((i * cs) as int, (i * cs + take) as int) + seq![]
                =~= content.subrange((i * cs) as int, content.len() as int));
        }
    }
}

/// Stored data reads back: after the chain for non-empty `content` is
/// taken and filled, a file entry that points at its first cluster with the
/// length of `content` reads `content` (for content of at most as many
/// clusters as a chain walk visits).
pub proof fn lemma_stored_content_reads_back(d: Seq<u8>, p: BpbParams, content: Seq<u8>, e: DirEntryView)
    requires
        params_ok(p),
        content.len() > 0,
        div_ceil_spec(content.len(), cluster_size(p)) <= MAX_CHAIN,
        content_stage(d, p, content).0.is_ok(),
        e.first_cluster == content_stage(d, p, content).0->Ok_0,
        e.size == content.len(),
        !e.attrs.directory,
    ensures
        read_file_spec(content_stage(d, p, content).1, p, e) == Ok::<Seq<u8>, FatError>(content),
{
    let cs = cluster_size(p);
    assert(cs > 0) by (nonlinear_arith)
        requires
            p.bytes_per_sector > 0,
            p.sectors_per_cluster > 0,
            cs == p.bytes_per_sector as nat * p.sectors_per_cluster as nat,
    ;
    let needed = div_ceil_spec(content.len(), cs);
    assert(needed >= 1) by (nonlinear_arith)
        requires
            needed == (content.len() + cs - 1) / (cs as int),
            content.len() > 0,
            cs > 0,
    ;
    assert(max_cluster_spec(d, p).is_ok());
    let mx = max_cluster_spec(d, p)->Ok_0;
    assert(mx < crate::fat::FAT32_EOC_MIN);
    assert(free_scan(d, p, 2, mx, needed).is_ok());
    let f = free_scan(d, p, 2, mx, needed)->Ok_0;
    assert(f.len() == needed);
    let w = link_from(d, p, f, 0);
    let dd = data_from(w.1, p, f, content, 0, 0);
    assert(content_stage(d, p, content) == (Ok::<u32, FatError>(f[0]), dd.1));
    lemma_free_scan(d, p, 2, mx, needed);
    assert(slots_fit(p, f)) by {
        assert forall|j: int| 0 <= j < f.len() implies (#[trigger] f[j]) as nat * 4 + 4 <= fat_bytes(
            p,
        ) by {
            assert(f[j] <= mx);
        }
    }
    lemma_link_from(d, p, f, 0);
    assert(0 * cs == 0);
    lemma_data_from(w.1, p, f, content, 0);
    let d2 = dd.1;
    assert(data_start(p) >= fat_start(p) + fat_bytes(p)) by (nonlinear_arith)
        requires
            p.num_fats >= 1,
            data_start(p) == fat_start(p) + p.num_fats * fat_bytes(p),
    ;
    assert forall|j: int| 0 <= j < f.len() implies slot0(p, #[trigger] f[j]) + 4 <= d2.len() && le32(
        d2,
        slot0(p, f[j]),
    ) == link_value(f, j) as nat by {
        let k = slot0(p, f[j]);
        assert(f[j] as nat * 4 + 4 <= fat_bytes(p));
        assert(d2[k] == w.1[k] && d2[k + 1] == w.1[k + 1] && d2[k + 2] == w.1[k + 2] && d2[k + 3]
            == w.1[k + 3]);
    }
    lemma_chain_of_links(d2, p, f, 0, MAX_CHAIN as nat);
    assert(f.skip(0) =~= f);
    assert(content.len() <= f.len() * cs) by (nonlinear_arith)
        requires
            f.len() == needed,
            needed == (content.len() + cs - 1) / (cs as int),
            cs > 0,
    ;
    lemma_read_pieces(d2, p, f, content, 0);
    assert(content.subrange(0, content.len() as int) =~= content);
}

proof fn lemma_le16_round_trip(v: nat)
    requires
        v < 65536,
    ensures
        le16_bytes(v)[0] as nat + le16_bytes(v)[1] as nat * 256 == v,
{
}

/// The record the write path puts down decodes to a file entry with the
/// given first cluster and size, unless its first name byte marks a free
/// or deleted record.
pub proof fn lemma_record_decodes(n: Seq<u8>, x: Seq<u8>, fc: u32, size: u32)
    requires
        n.len() == 8,
        x.len() == 3,
        n[0] != 0,
        n[0] != 0xE5,
    ensures
        ({
            let rec = record_bytes(n, x, fc, size);
            &&& rec.len() == 32
            &&& parse_spec(rec) == Some(
                DirEntryView {
                    name: short_name_of(rec),
                    attrs: attrs_of(0x20),
                    first_cluster: fc,
                    size,
                },
            )
            &&& !attrs_of(0x20).directory
        }),
{
    let rec = record_bytes(n, x, fc, size);
    assert(rec.len() == 32);
    assert(rec[0] == n[0]);
    assert(rec[11] == 0x20);
    assert(!attrs_of(0x20).volume_id && !attrs_of(0x20).directory) by {
        assert(0x20u8 & 0x08u8 == 0 && 0x20u8 & 0x10u8 == 0) by (bit_vector);
    }
    let hi = fc as nat / 65536;
    let lo = fc as nat % 65536;
    lemma_le16_round_trip(hi);
    lemma_le16_round_trip(lo);
    assert(rec[20] == le16_bytes(hi)[0] && rec[21] == le16_bytes(hi)[1]);
    assert(rec[26] == le16_bytes(lo)[0] && rec[27] == le16_bytes(lo)[1]);
    assert(le16(rec, 20) == hi);
    assert(le16(rec, 26) == lo);
    assert(rec[28] == le32_bytes(size)[0] && rec[29] == le32_bytes(size)[1] && rec[30]
        == le32_bytes(size)[2] && rec[31] == le32_bytes(size)[3]);
    lemma_le32_round_trip(rec, 28, size);
    assert(hi * 65536 + lo == fc);
}

} // verus!

//! Little-endian integers in byte images.
use vstd::prelude::*;

verus! {

/// The little-endian 16-bit value stored at `s[i..i+2]`.
pub open spec fn le16(s: Seq<u8>, i: int) -> nat {
    s[i] as nat + s[i + 1] as nat * 256
}

/// The little-endian 32-bit value stored at `s[i..i+4]`.
pub open spec fn le32(s: Seq<u8>, i: int) -> nat {
    s[i] as nat + s[i + 1] as nat * 256 + s[i + 2] as nat * 65536 + s[i + 3] as nat * 16777216
}

/// The four little-endian bytes of `v`.
pub open spec fn le32_bytes(v: u32) -> Seq<u8> {
    seq![(v % 256) as u8, ((v / 256) % 256) as u8, ((v / 65536) % 256) as u8, (v / 16777216) as u8]
}

/// Reads a little-endian `u16` at byte offset `i`.
pub fn read_u16_le(d: &[u8], i: usize) -> (r: u16)
    requires
        i + 2 <= d@.len(),
    ensures
        r as nat == le16(d@, i as int),
{
    d[i] as u16 + d[i + 1] as u16 * 256
}

/// Reads a little-endian `u32` at byte offset `i`.
pub fn read_u32_le(d: &[u8], i: usize) -> (r: u32)
    requires
        i + 4 <= d@.len(),
    ensures
        r as nat == le32(d@, i as int),
{
    d[i] as u32 + d[i + 1] as u32 * 256 + d[i + 2] as u32 * 65536 + d[i + 3] as u32 * 16777216
}

/// Stores `v` little-endian at byte offset `i`, leaving every other byte alone.
pub fn write_u32_le(d: &mut [u8], i: usize, v: u32)
    requires
        i + 4 <= old(d)@.len(),
    ensures
        final(d)@ == old(d)@.update(i as int, le32_bytes(v)[0]).update(i + 1, le32_bytes(v)[1]).update(
            i + 2,
            le32_bytes(v)[2],
        ).update(i + 3, le32_bytes(v)[3]),
{
    d[i] = (v % 256) as u8;
    d[i + 1] = ((v / 256) % 256) as u8;
    d[i + 2] = ((v / 65536) % 256) as u8;
    d[i + 3] = (v / 16777216) as u8;
}

/// Writing `v` and reading it back gives `v`.
pub proof fn lemma_le32_round_trip(s: Seq<u8>, i: int, v: u32)
    requires
        0 <= i,
        i + 4 <= s.len(),
        s[i] == le32_bytes(v)[0],
        s[i + 1] == le32_bytes(v)[1],
        s[i + 2] == le32_bytes(v)[2],
        s[i + 3] == le32_bytes(v)[3],
    ensures
        le32(s, i) == v as nat,
{
}

} // verus!

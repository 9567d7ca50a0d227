//! Short-name (8.3) directory records: attribute bits and record decoding.
use vstd::prelude::*;

use crate::bytes::{le16, le32, read_u16_le, read_u32_le};

verus! {

/// The attribute bits of a directory record (byte 11).
#[derive(Debug, Clone, Copy, PartialEq, Eq, Structural)]
pub struct Attributes {
    pub read_only: bool,
    pub hidden: bool,
    pub system: bool,
    pub volume_id: bool,
    pub directory: bool,
    pub archive: bool,
}

/// The attributes that the bits of `b` stand for.
pub open spec fn attrs_of(b: u8) -> Attributes {
    Attributes {
        read_only: b & 0x01 != 0,
        hidden: b & 0x02 != 0,
        system: b & 0x04 != 0,
        volume_id: b & 0x08 != 0,
        directory: b & 0x10 != 0,
        archive: b & 0x20 != 0,
    }
}

impl Attributes {
    /// Decodes the attribute byte.
    pub fn from_byte(b: u8) -> (r: Self)
        ensures
            r == attrs_of(b),
    {
        Attributes {
            read_only: b & 0x01 != 0,
            hidden: b & 0x02 != 0,
            system: b & 0x04 != 0,
            volume_id: b & 0x08 != 0,
            directory: b & 0x10 != 0,
            archive: b & 0x20 != 0,
        }
    }
}

/// A decoded short-name directory record.
#[derive(Debug, Clone)]
pub struct DirEntry {
    /// `NAME.EXT`, or `NAME` when the extension is blank.
    pub name: String,
    pub attrs: Attributes,
    /// First cluster of the data chain (0 for an empty file).
    pub first_cluster: u32,
    /// Size in bytes (0 for a directory).
    pub size: u32,
}

/// What a [`DirEntry`] holds, with its name as characters.
pub struct DirEntryView {
    pub name: Seq<char>,
    pub attrs: Attributes,
    pub first_cluster: u32,
    pub size: u32,
}

impl View for DirEntry {
    type V = DirEntryView;

    open spec fn view(&self) -> DirEntryView {
        DirEntryView {
            name: self.name@,
            attrs: self.attrs,
            first_cluster: self.first_cluster,
            size: self.size,
        }
    }
}

/// `s` without its trailing spaces.
pub open spec fn trim_spaces(s: Seq<u8>) -> Seq<u8>
    decreases s.len(),
{
    if s.len() > 0 && s.last() == 0x20u8 {
        trim_spaces(s.drop_last())
    } else {
        s
    }
}

/// Each byte read as the character of the same code.
pub open spec fn latin1(s: Seq<u8>) -> Seq<char> {
    s.map_values(|b: u8| b as char)
}

/// The name that a record's bytes 0..11 spell: base and extension with
/// their padding removed, joined by a dot when the extension is not blank.
pub open spec fn short_name_of(e: Seq<u8>) -> Seq<char> {
    let n = latin1(trim_spaces(e.subrange(0, 8)));
    let x = latin1(trim_spaces(e.subrange(8, 11)));
    if x.len() > 0 {
        n + seq!['.'] + x
    } else {
        n
    }
}

/// The entry a 32-byte record holds, if any: free, deleted and volume-label
/// records hold none.
pub open spec fn parse_spec(e: Seq<u8>) -> Option<DirEntryView> {
    if e.len() < 32 || e[0] == 0u8 || e[0] == 0xE5u8 || attrs_of(e[11]).volume_id {
        None
    } else {
        Some(
            DirEntryView {
                name: short_name_of(e),
                attrs: attrs_of(e[11]),
                first_cluster: (le16(e, 20) * 65536 + le16(e, 26)) as u32,
                size: le32(e, 28) as u32,
            },
        )
    }
}

/// Relies on `String::push`: the character is appended at the end.
#[verifier::external_body]
pub(crate) fn push_char(s: &mut String, c: char)
    ensures
        final(s)@ == old(s)@.push(c),
{
    s.push(c)
}

/// The bytes `b[from..to]` without trailing spaces, one character per byte.
fn decode_ascii_trim(b: &[u8], from: usize, to: usize) -> (r: String)
    requires
        from <= to <= b@.len(),
    ensures
        r@ == latin1(trim_spaces(b@.subrange(from as int, to as int))),
{
    let mut end = to;
    while end > from && b[end - 1] == 0x20u8
        invariant
            from <= end <= to <= b@.len(),
            trim_spaces(b@.subrange(from as int, end as int)) == trim_spaces(
                b@.subrange(from as int, to as int),
            ),
        decreases end,
    {
        assert(b@.subrange(from as int, end as int).drop_last() =~= b@.subrange(
            from as int,
            end - 1,
        ));
        end -= 1;
    }
    let mut s = String::new();
    let mut i = from;
    while i < end
        invariant
            from <= i <= end <= b@.len(),
            s@ == latin1(b@.subrange(from as int, i as int)),
        decreases end - i,
    {
        push_char(&mut s, b[i] as char);
        assert(b@.subrange(from as int, i + 1) =~= b@.subrange(from as int, i as int).push(b[i as int]));
        assert(latin1(b@.subrange(from as int, i + 1)) =~= latin1(b@.subrange(from as int, i as int)).push(b[i as int] as char));
        i += 1;
    }
    s
}

impl DirEntry {
    /// Decodes a 32-byte record; `None` for a free, deleted or volume-label
    /// record, or for fewer than 32 bytes.
    pub fn parse(entry: &[u8]) -> (r: Option<Self>)
        ensures
            match r {
                Some(e) => parse_spec(entry@) == Some(e@),
                None => parse_spec(entry@).is_none(),
            },
    {
        if entry.len() < 32 {
            return None;
        }
        if entry[0] == 0x00 || entry[0] == 0xE5 {
            return None;
        }
        let attrs = Attributes::from_byte(entry[11]);
        if attrs.volume_id {
            return None;
        }
        let mut name = decode_ascii_trim(entry, 0, 8);
        let ext = decode_ascii_trim(entry, 8, 11);
        let ghost n0 = name@;
        if ext.as_str().unicode_len() > 0 {
            push_char(&mut name, '.');
            name.append(ext.as_str());
            assert(name@ =~= n0 + seq!['.'] + ext@);
        }
        assert(name@ =~= short_name_of(entry@));
        let hi = read_u16_le(entry, 20) as u32;
        let lo = read_u16_le(entry, 26) as u32;
        let first_cluster = hi * 65536 + lo;
        let size = read_u32_le(entry, 28);
        Some(DirEntry { name, attrs, first_cluster, size })
    }

    /// True for a directory.
    pub fn is_dir(&self) -> (r: bool)
        ensures
            r == self.attrs.directory,
    {
        self.attrs.directory
    }

    /// True for anything that is not a directory.
    pub fn is_file(&self) -> (r: bool)
        ensures
            r == !self.attrs.directory,
    {
        !self.attrs.directory
    }
}

} // verus!

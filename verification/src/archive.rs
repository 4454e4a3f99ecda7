//! The container layout: header, table of contents, and the readers that
//! decode them from a byte stream.
//!
//! ```text
//! u32 header_length
//! u8[header_length] header_text
//! u32 member_count
//! repeat member_count:
//!     u32 name_length
//!     u8[name_length] name
//!     u8[4] reserved
//!     u32 payload_size
//! repeat member_count, in the order of the table:
//!     u8[payload_size] payload
//! ```
//!
//! All integers are unsigned and little-endian.

use vstd::prelude::*;
use vstd::slice::slice_to_vec;
use vstd::utf8::{decode_utf8, valid_utf8};
use crate::error::UnpackError;
use crate::stream::{le_u32, read_int32, ByteReader};
use crate::text::{decode_lossy, lossy_text};

verus! {

/// The leading record of an archive.
#[derive(Debug, PartialEq, Eq)]
pub struct ArchiveHeader {
    /// Free-form tag of the format, as the bytes that the archive holds.
    pub format_tag: Vec<u8>,
    /// Number of entries in the table of contents.
    pub member_count: u32,
}

/// One record of the table of contents.
#[derive(Debug, PartialEq, Eq)]
pub struct TocEntry {
    /// Name of the member, as the bytes that the archive holds. It may
    /// contain path separators.
    pub name: Vec<u8>,
    /// Length of the member's payload in bytes.
    pub size: u32,
}

/// The table of contents: one entry per member, in archive order.
#[derive(Debug, PartialEq, Eq)]
pub struct ArchiveIndex {
    pub entries: Vec<TocEntry>,
}

/// Mathematical value of an `ArchiveHeader`.
pub struct HeaderView {
    pub format_tag: Seq<u8>,
    pub member_count: nat,
}

/// Mathematical value of a `TocEntry`.
pub struct EntryView {
    pub name: Seq<u8>,
    pub size: nat,
}

impl View for ArchiveHeader {
    type V = HeaderView;

    open spec fn view(&self) -> HeaderView {
        HeaderView { format_tag: self.format_tag@, member_count: self.member_count as nat }
    }
}

impl View for TocEntry {
    type V = EntryView;

    open spec fn view(&self) -> EntryView {
        EntryView { name: self.name@, size: self.size as nat }
    }
}

impl ArchiveHeader {
    /// The format tag as text, read permissively.
    pub fn format_text(&self) -> (text: String)
        ensures
            text@ == lossy_text(self.format_tag@),
            valid_utf8(self.format_tag@) ==> text@ == decode_utf8(self.format_tag@),
    {
        decode_lossy(self.format_tag.as_slice())
    }
}

impl TocEntry {
    /// The member's name as text, read permissively.
    pub fn name_text(&self) -> (text: String)
        ensures
            text@ == lossy_text(self.name@),
            valid_utf8(self.name@) ==> text@ == decode_utf8(self.name@),
    {
        decode_lossy(self.name.as_slice())
    }
}

/// The values of a sequence of entries, one for one.
pub open spec fn entries_view(entries: Seq<TocEntry>) -> Seq<EntryView> {
    Seq::new(entries.len(), |i: int| entries[i]@)
}

impl View for ArchiveIndex {
    type V = Seq<EntryView>;

    open spec fn view(&self) -> Seq<EntryView> {
        entries_view(self.entries@)
    }
}

/// A length-prefixed block at the front of `s`: a 32-bit length, then that
/// many bytes. Gives the bytes and the size of the whole block, or `None`
/// when `s` is too short to hold it.
pub open spec fn parse_block(s: Seq<u8>) -> Option<(Seq<u8>, int)> {
    if s.len() < 4 || s.len() < 4 + le_u32(s) {
        None
    } else {
        Some((s.subrange(4, 4 + le_u32(s)), 4 + le_u32(s)))
    }
}

/// The header at the front of `s`: the format tag as a block, then the
/// member count. Gives the header and its size in bytes.
pub open spec fn parse_header(s: Seq<u8>) -> Option<(HeaderView, int)> {
    match parse_block(s) {
        Some((tag, n)) if s.len() >= n + 4 => Some(
            (HeaderView { format_tag: tag, member_count: le_u32(s.skip(n)) as nat }, n + 4),
        ),
        _ => None,
    }
}

/// The entry at the front of `s`: the name as a block, four reserved bytes
/// that carry no meaning, then the payload size. Gives the entry and its
/// size in bytes.
pub open spec fn parse_entry(s: Seq<u8>) -> Option<(EntryView, int)> {
    match parse_block(s) {
        Some((name, n)) if s.len() >= n + 8 => Some(
            (EntryView { name, size: le_u32(s.skip(n + 4)) as nat }, n + 8),
        ),
        _ => None,
    }
}

/// The first `count` entries of the table of contents at the front of `s`,
/// with the size of those entries in bytes.
pub open spec fn parse_index(s: Seq<u8>, count: nat) -> Option<(Seq<EntryView>, int)>
    decreases count,
{
    if count == 0 {
        Some((Seq::empty(), 0))
    } else {
        match parse_index(s, (count - 1) as nat) {
            Some((entries, n)) => match parse_entry(s.skip(n)) {
                Some((entry, m)) => Some((entries.push(entry), n + m)),
                None => None,
            },
            None => None,
        }
    }
}

/// The header and the table of contents at the front of `archive`, with
/// the offset at which the payloads start.
pub open spec fn parse_toc(archive: Seq<u8>) -> Option<(HeaderView, Seq<EntryView>, int)> {
    match parse_header(archive) {
        Some((header, n)) => match parse_index(archive.skip(n), header.member_count) {
            Some((index, m)) => Some((header, index, n + m)),
            None => None,
        },
        None => None,
    }
}

/// `s` and `t` hold the same first `n` bytes.
pub open spec fn same_prefix(s: Seq<u8>, t: Seq<u8>, n: int) -> bool {
    &&& n <= s.len()
    &&& n <= t.len()
    &&& forall|i: int| 0 <= i < n ==> s[i] == t[i]
}

/// Reads a length-prefixed block. A failed read leaves the cursor where it
/// was.
pub fn read_block(reader: &mut ByteReader) -> (r: Result<Vec<u8>, UnpackError>)
    ensures
        match r {
            Ok(bytes) => {
                &&& parse_block(old(reader)@) == Some((bytes@, 4 + bytes@.len() as int))
                &&& final(reader)@ == old(reader)@.skip(4 + bytes@.len() as int)
            },
            Err(e) => {
                &&& parse_block(old(reader)@) is None
                &&& e == UnpackError::TruncatedInput
                &&& final(reader)@ == old(reader)@
            },
        },
{
    let mut probe = *reader;
    let length = match read_int32(&mut probe) {
        Ok(v) => v,
        Err(e) => {
            return Err(e);
        },
    };
    let bytes = match probe.read_exact(length as usize) {
        Ok(b) => b,
        Err(e) => {
            return Err(e);
        },
    };
    *reader = probe;
    Ok(slice_to_vec(bytes))
}

/// Reads the header: the format tag and the number of members. A failed
/// read leaves the cursor where it was.
pub fn read_header(reader: &mut ByteReader) -> (r: Result<ArchiveHeader, UnpackError>)
    ensures
        match r {
            Ok(header) => {
                &&& parse_header(old(reader)@) matches Some((h, n))
                &&& header@ == h
                &&& final(reader)@ == old(reader)@.skip(n)
            },
            Err(e) => {
                &&& parse_header(old(reader)@) is None
                &&& e == UnpackError::TruncatedInput
                &&& final(reader)@ == old(reader)@
            },
        },
{
    let mut probe = *reader;
    let format_tag = match read_block(&mut probe) {
        Ok(b) => b,
        Err(e) => {
            return Err(e);
        },
    };
    let member_count = match read_int32(&mut probe) {
        Ok(v) => v,
        Err(e) => {
            return Err(e);
        },
    };
    *reader = probe;
    Ok(ArchiveHeader { format_tag, member_count })
}

/// Reads one entry of the table of contents. The four reserved bytes are
/// passed over. A failed read leaves the cursor where it was.
pub fn read_entry(reader: &mut ByteReader) -> (r: Result<TocEntry, UnpackError>)
    ensures
        match r {
            Ok(entry) => {
                &&& parse_entry(old(reader)@) matches Some((e, n))
                &&& entry@ == e
                &&& final(reader)@ == old(reader)@.skip(n)
            },
            Err(e) => {
                &&& parse_entry(old(reader)@) is None
                &&& e == UnpackError::TruncatedInput
                &&& final(reader)@ == old(reader)@
            },
        },
{
    let mut probe = *reader;
    let name = match read_block(&mut probe) {
        Ok(b) => b,
        Err(e) => {
            return Err(e);
        },
    };
    match probe.skip(4) {
        Ok(_) => {},
        Err(e) => {
            return Err(e);
        },
    }
    let size = match read_int32(&mut probe) {
        Ok(v) => v,
        Err(e) => {
            return Err(e);
        },
    };
    *reader = probe;
    Ok(TocEntry { name, size })
}

/// A table of contents that is read in full has exactly `count` entries and
/// lies within the input.
pub proof fn lemma_parse_index_bounds(s: Seq<u8>, count: nat)
    requires
        parse_index(s, count) is Some,
    ensures
        parse_index(s, count).unwrap().0.len() == count,
        0 <= parse_index(s, count).unwrap().1 <= s.len(),
    decreases count,
{
    if count > 0 {
        lemma_parse_index_bounds(s, (count - 1) as nat);
    }
}

/// A block is decoded from its own bytes alone.
pub proof fn lemma_parse_block_prefix(s: Seq<u8>, t: Seq<u8>)
    requires
        parse_block(s) is Some,
        same_prefix(s, t, parse_block(s).unwrap().1),
    ensures
        parse_block(t) == parse_block(s),
{
}

/// A header is decoded from its own bytes alone.
pub proof fn lemma_parse_header_prefix(s: Seq<u8>, t: Seq<u8>)
    requires
        parse_header(s) is Some,
        same_prefix(s, t, parse_header(s).unwrap().1),
    ensures
        parse_header(t) == parse_header(s),
{
    lemma_parse_block_prefix(s, t);
}

/// An entry is decoded from its own bytes alone.
pub proof fn lemma_parse_entry_prefix(s: Seq<u8>, t: Seq<u8>)
    requires
        parse_entry(s) is Some,
        same_prefix(s, t, parse_entry(s).unwrap().1),
    ensures
        parse_entry(t) == parse_entry(s),
{
    lemma_parse_block_prefix(s, t);
}

/// A table of contents is decoded from its own bytes alone.
pub proof fn lemma_parse_index_prefix(s: Seq<u8>, t: Seq<u8>, count: nat)
    requires
        parse_index(s, count) is Some,
        same_prefix(s, t, parse_index(s, count).unwrap().1),
    ensures
        parse_index(t, count) == parse_index(s, count),
    decreases count,
{
    if count > 0 {
        let before = (count - 1) as nat;
        let n = parse_index(s, before).unwrap().1;
        lemma_parse_index_bounds(s, before);
        lemma_parse_index_prefix(s, t, before);
        lemma_parse_entry_prefix(s.skip(n), t.skip(n));
    }
}

/// The header and the table of contents are decoded from their own bytes
/// alone: what follows them has no part in it.
pub proof fn lemma_parse_toc_prefix(s: Seq<u8>, t: Seq<u8>)
    requires
        parse_toc(s) is Some,
        same_prefix(s, t, parse_toc(s).unwrap().2),
    ensures
        parse_toc(t) == parse_toc(s),
{
    let (header, n) = parse_header(s).unwrap();
    lemma_parse_index_bounds(s.skip(n), header.member_count);
    lemma_parse_header_prefix(s, t);
    lemma_parse_index_prefix(s.skip(n), t.skip(n), header.member_count);
}

/// Once the table of contents is cut short, asking for more entries does
/// not bring it back.
proof fn lemma_parse_index_none(s: Seq<u8>, short: nat, count: nat)
    requires
        parse_index(s, short) is None,
        short <= count,
    ensures
        parse_index(s, count) is None,
    decreases count,
{
    if short < count {
        lemma_parse_index_none(s, short, (count - 1) as nat);
    }
}

/// Reads the table of contents: `member_count` entries, in order. A failed
/// read leaves the cursor where it was, and no part of the table is given.
pub fn read_index(reader: &mut ByteReader, member_count: u32) -> (r: Result<
    ArchiveIndex,
    UnpackError,
>)
    ensures
        match r {
            Ok(index) => {
                &&& parse_index(old(reader)@, member_count as nat) matches Some((entries, n))
                &&& index@ == entries
                &&& index@.len() == member_count
                &&& final(reader)@ == old(reader)@.skip(n)
            },
            Err(e) => {
                &&& parse_index(old(reader)@, member_count as nat) is None
                &&& e == UnpackError::TruncatedInput
                &&& final(reader)@ == old(reader)@
            },
        },
{
    let mut probe = *reader;
    let mut entries: Vec<TocEntry> = Vec::new();
    let ghost mut read: int = 0;
    let mut i: u32 = 0;
    while i < member_count
        invariant
            i <= member_count,
            entries@.len() == i,
            0 <= read <= reader@.len(),
            parse_index(reader@, i as nat) == Some((entries_view(entries@), read)),
            probe@ == reader@.skip(read),
        decreases member_count - i,
    {
        let entry = match read_entry(&mut probe) {
            Ok(entry) => entry,
            Err(e) => {
                proof {
                    lemma_parse_index_none(reader@, (i + 1) as nat, member_count as nat);
                }
                return Err(e);
            },
        };
        proof {
            let (_, m) = parse_entry(reader@.skip(read)).unwrap();
            read = read + m;
        }
        entries.push(entry);
        i = i + 1;
    }
    *reader = probe;
    Ok(ArchiveIndex { entries })
}

} // verus!

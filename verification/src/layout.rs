//! The layout of an archive, written out as the bytes that hold given
//! members, and the proof that decoding reads back what the layout holds.

use vstd::prelude::*;
use crate::archive::{
    parse_block, parse_entry, parse_header, parse_index, parse_toc, EntryView, HeaderView,
};
use crate::stream::{law_write_then_read, le_bytes, le_u32};
use crate::unpack::{
    complete_members, extraction, lemma_payload_order, member_file, payload_start, total_size,
    unpack, FileView, UnpackedView,
};

verus! {

/// A block: the length of `bytes` as a 32-bit integer, then `bytes`.
pub open spec fn block_layout(bytes: Seq<u8>) -> Seq<u8> {
    le_bytes(bytes.len() as u32) + bytes
}

/// A header: the format tag as a block, then the member count.
pub open spec fn header_layout(header: HeaderView) -> Seq<u8> {
    block_layout(header.format_tag) + le_bytes(header.member_count as u32)
}

/// An entry of the table of contents: the name as a block, the four
/// reserved bytes, then the payload size.
pub open spec fn entry_layout(entry: EntryView, reserved: Seq<u8>) -> Seq<u8> {
    block_layout(entry.name) + reserved + le_bytes(entry.size as u32)
}

/// A table of contents: its entries, one after the other, each with its own
/// reserved bytes.
pub open spec fn index_layout(index: Seq<EntryView>, reserved: Seq<Seq<u8>>) -> Seq<u8>
    decreases index.len(),
{
    if index.len() == 0 {
        Seq::empty()
    } else {
        index_layout(index.drop_last(), reserved.drop_last()) + entry_layout(
            index.last(),
            reserved.last(),
        )
    }
}

/// The payload area: the contents of the files, one after the other.
pub open spec fn payload_layout(files: Seq<FileView>) -> Seq<u8>
    decreases files.len(),
{
    if files.len() == 0 {
        Seq::empty()
    } else {
        payload_layout(files.drop_last()) + files.last().contents
    }
}

/// The table of contents that describes `files`: the name and the length of
/// each.
pub open spec fn index_of(files: Seq<FileView>) -> Seq<EntryView> {
    Seq::new(files.len(), |i: int| EntryView { name: files[i].name, size: files[i].contents.len() })
}

/// The archive that holds `files` under the format tag `tag`: header, table
/// of contents, payloads.
pub open spec fn archive_layout(tag: Seq<u8>, reserved: Seq<Seq<u8>>, files: Seq<FileView>) -> Seq<
    u8,
> {
    header_layout(HeaderView { format_tag: tag, member_count: files.len() }) + index_layout(
        index_of(files),
        reserved,
    ) + payload_layout(files)
}

/// What an archive can hold: every length fits in 32 bits, and each member
/// has its four reserved bytes.
pub open spec fn fits_layout(tag: Seq<u8>, reserved: Seq<Seq<u8>>, files: Seq<FileView>) -> bool {
    &&& tag.len() <= u32::MAX
    &&& files.len() <= u32::MAX
    &&& reserved.len() == files.len()
    &&& forall|i: int|
        0 <= i < files.len() ==> {
            &&& (#[trigger] files[i]).name.len() <= u32::MAX
            &&& files[i].contents.len() <= u32::MAX
        }
    &&& forall|i: int| 0 <= i < reserved.len() ==> (#[trigger] reserved[i]).len() == 4
}

/// A little-endian integer is read from the first four bytes alone.
proof fn lemma_le_u32_front(s: Seq<u8>, front: Seq<u8>)
    requires
        front.len() == 4,
        s.len() >= 4,
        s.take(4) == front,
    ensures
        le_u32(s) == le_u32(front),
{
}

/// A block is read back from its layout, whatever follows it.
pub proof fn lemma_parse_block_layout(bytes: Seq<u8>, rest: Seq<u8>)
    requires
        bytes.len() <= u32::MAX,
    ensures
        parse_block(block_layout(bytes) + rest) == Some((bytes, 4 + bytes.len() as int)),
{
    let s = block_layout(bytes) + rest;
    law_write_then_read(bytes.len() as u32);
    assert(s.take(4) =~= le_bytes(bytes.len() as u32));
    lemma_le_u32_front(s, le_bytes(bytes.len() as u32));
}

/// A header is read back from its layout, whatever follows it.
pub proof fn lemma_parse_header_layout(header: HeaderView, rest: Seq<u8>)
    requires
        header.format_tag.len() <= u32::MAX,
        header.member_count <= u32::MAX,
    ensures
        parse_header(header_layout(header) + rest) == Some(
            (header, header_layout(header).len() as int),
        ),
{
    let count = le_bytes(header.member_count as u32);
    let s = header_layout(header) + rest;
    let n = 4 + header.format_tag.len() as int;
    law_write_then_read(header.format_tag.len() as u32);
    law_write_then_read(header.member_count as u32);
    assert(s =~= block_layout(header.format_tag) + (count + rest));
    lemma_parse_block_layout(header.format_tag, count + rest);
    assert(s.skip(n).take(4) =~= count);
    lemma_le_u32_front(s.skip(n), count);
}

/// An entry is read back from its layout, whatever its reserved bytes are
/// and whatever follows it.
pub proof fn lemma_parse_entry_layout(entry: EntryView, reserved: Seq<u8>, rest: Seq<u8>)
    requires
        entry.name.len() <= u32::MAX,
        entry.size <= u32::MAX,
        reserved.len() == 4,
    ensures
        parse_entry(entry_layout(entry, reserved) + rest) == Some(
            (entry, entry_layout(entry, reserved).len() as int),
        ),
{
    let size = le_bytes(entry.size as u32);
    let s = entry_layout(entry, reserved) + rest;
    let n = 4 + entry.name.len() as int;
    law_write_then_read(entry.name.len() as u32);
    law_write_then_read(entry.size as u32);
    assert(s =~= block_layout(entry.name) + (reserved + size + rest));
    lemma_parse_block_layout(entry.name, reserved + size + rest);
    assert(s.skip(n + 4).take(4) =~= size);
    lemma_le_u32_front(s.skip(n + 4), size);
}

/// A table of contents is read back from its layout, whatever follows it.
pub proof fn lemma_parse_index_layout(index: Seq<EntryView>, reserved: Seq<Seq<u8>>, rest: Seq<u8>)
    requires
        reserved.len() == index.len(),
        forall|i: int|
            0 <= i < index.len() ==> {
                &&& (#[trigger] index[i]).name.len() <= u32::MAX
                &&& index[i].size <= u32::MAX
            },
        forall|i: int| 0 <= i < reserved.len() ==> (#[trigger] reserved[i]).len() == 4,
    ensures
        parse_index(index_layout(index, reserved) + rest, index.len()) == Some(
            (index, index_layout(index, reserved).len() as int),
        ),
    decreases index.len(),
{
    if index.len() > 0 {
        let before = index_layout(index.drop_last(), reserved.drop_last());
        let entry = entry_layout(index.last(), reserved.last());
        let s = index_layout(index, reserved) + rest;
        assert(s =~= before + (entry + rest));
        lemma_parse_index_layout(index.drop_last(), reserved.drop_last(), entry + rest);
        assert(s.skip(before.len() as int) =~= entry + rest);
        lemma_parse_entry_layout(index.last(), reserved.last(), rest);
    }
}

/// In the payload area of `files`, each member's region holds that file's
/// contents, and the area is as long as the table of contents says.
pub proof fn lemma_member_file_layout(files: Seq<FileView>, rest: Seq<u8>, i: int)
    requires
        0 <= i < files.len(),
    ensures
        total_size(index_of(files)) == payload_layout(files).len(),
        member_file(payload_layout(files) + rest, index_of(files), i) == files[i],
    decreases files.len(),
{
    let index = index_of(files);
    let shorter = files.drop_last();
    let payloads = payload_layout(files) + rest;
    let count = files.len() as int;
    assert(index.take(count) =~= index);
    assert(index.take(count - 1) =~= index_of(shorter));
    if count > 1 {
        lemma_member_file_layout(shorter, files.last().contents + rest, 0);
    }
    if i < count - 1 {
        lemma_member_file_layout(shorter, files.last().contents + rest, i);
        assert(payloads =~= payload_layout(shorter) + (files.last().contents + rest));
        assert(index.take(i) =~= index_of(shorter).take(i));
        assert(index.take(i + 1) =~= index_of(shorter).take(i + 1));
    } else {
        assert(member_file(payloads, index, i).contents =~= files[i].contents);
    }
}

/// Decoding the layout of an archive gives back the tag and the files that
/// it was laid out from, with the table of contents that describes them and
/// no failure, whatever the reserved bytes are and whatever follows the last
/// payload.
pub proof fn law_unpack_layout(
    tag: Seq<u8>,
    reserved: Seq<Seq<u8>>,
    files: Seq<FileView>,
    rest: Seq<u8>,
)
    requires
        fits_layout(tag, reserved, files),
    ensures
        unpack(archive_layout(tag, reserved, files) + rest) == Some(
            UnpackedView {
                header: HeaderView { format_tag: tag, member_count: files.len() },
                index: index_of(files),
                files,
                failure: None,
            },
        ),
{
    let header = HeaderView { format_tag: tag, member_count: files.len() };
    let index = index_of(files);
    let head = header_layout(header);
    let table = index_layout(index, reserved);
    let payloads = payload_layout(files) + rest;
    let archive = archive_layout(tag, reserved, files) + rest;
    let count = files.len() as int;
    assert(archive =~= head + (table + payloads));
    lemma_parse_header_layout(header, table + payloads);
    assert(archive.skip(head.len() as int) =~= table + payloads);
    lemma_parse_index_layout(index, reserved, payloads);
    assert(archive.skip((head.len() + table.len()) as int) =~= payloads);
    if count > 0 {
        lemma_member_file_layout(files, rest, 0);
    }
    assert forall|i: int| 0 <= i < count implies member_file(payloads, index, i) == files[i] by {
        lemma_member_file_layout(files, rest, i);
    }
    assert(extraction(payloads, index).0 =~= files);
}

} // verus!

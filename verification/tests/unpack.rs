use mpkg::archive::{ArchiveHeader, ArchiveIndex, TocEntry};
use mpkg::error::UnpackError;
use mpkg::stream::ByteReader;
use mpkg::unpack::{extract_members, unpack_mpkg, ExtractedFile, Unpacked};

fn length_prefixed(bytes: &[u8]) -> Vec<u8> {
    let mut out = (bytes.len() as u32).to_le_bytes().to_vec();
    out.extend_from_slice(bytes);
    out
}

/// Table of contents for `members`, then the payloads.
fn archive(tag: &[u8], members: &[(&[u8], &[u8])]) -> Vec<u8> {
    let mut out = length_prefixed(tag);
    out.extend_from_slice(&(members.len() as u32).to_le_bytes());
    for (name, payload) in members {
        out.extend(length_prefixed(name));
        out.extend_from_slice(&[0, 0, 0, 0]);
        out.extend_from_slice(&(payload.len() as u32).to_le_bytes());
    }
    for (_, payload) in members {
        out.extend_from_slice(payload);
    }
    out
}

fn toc_len(tag: &[u8], members: &[(&[u8], &[u8])]) -> usize {
    let payloads: usize = members.iter().map(|(_, p)| p.len()).sum();
    archive(tag, members).len() - payloads
}

fn listed(name: &[u8], size: u32) -> TocEntry {
    TocEntry { name: name.to_vec(), size }
}

fn file(name: &[u8], contents: &[u8]) -> ExtractedFile {
    ExtractedFile { name: name.to_vec(), contents: contents.to_vec() }
}

const THREE: [(&[u8], &[u8]); 3] =
    [(b"first.bin", b"0123456789"), (b"dir/second", b"abc"), (b"dir/sub/third.txt", b"XYZW")];

#[test]
fn hand_built_archive_with_one_member() {
    let bytes: Vec<u8> = vec![
        2, 0, 0, 0, b'v', b'1', // header
        1, 0, 0, 0, // member count
        7, 0, 0, 0, b'a', b'/', b'b', b'.', b't', b'x', b't', // name
        0, 0, 0, 0, // reserved
        2, 0, 0, 0, // payload size
        b'h', b'i', // payload
    ];
    let unpacked = unpack_mpkg(&bytes).unwrap();
    assert_eq!(
        unpacked,
        Unpacked {
            header: ArchiveHeader { format_tag: b"v1".to_vec(), member_count: 1 },
            index: ArchiveIndex { entries: vec![listed(b"a/b.txt", 2)] },
            files: vec![file(b"a/b.txt", b"hi")],
            failure: None,
        }
    );
    assert_eq!(unpacked.header.format_text(), "v1");
    assert_eq!(unpacked.files[0].name_text(), "a/b.txt");
    assert_eq!(unpacked.files[0].contents, [b'h', b'i']);
}

#[test]
fn archive_without_members_has_empty_index_and_no_files() {
    let bytes = archive(b"v1", &[]);
    assert_eq!(
        unpack_mpkg(&bytes),
        Ok(Unpacked {
            header: ArchiveHeader { format_tag: b"v1".to_vec(), member_count: 0 },
            index: ArchiveIndex { entries: Vec::new() },
            files: Vec::new(),
            failure: None,
        })
    );
}

#[test]
fn archive_without_members_ignores_what_follows() {
    let mut bytes = archive(b"", &[]);
    bytes.extend_from_slice(b"trailing bytes");
    let unpacked = unpack_mpkg(&bytes).unwrap();
    assert_eq!(unpacked.header, ArchiveHeader { format_tag: Vec::new(), member_count: 0 });
    assert!(unpacked.index.entries.is_empty());
    assert!(unpacked.files.is_empty());
    assert_eq!(unpacked.failure, None);
}

#[test]
fn members_come_out_in_the_order_of_the_table() {
    let bytes = archive(b"MPKG", &THREE);
    let unpacked = unpack_mpkg(&bytes).unwrap();
    assert_eq!(unpacked.header, ArchiveHeader { format_tag: b"MPKG".to_vec(), member_count: 3 });
    assert_eq!(
        unpacked.index.entries,
        vec![listed(b"first.bin", 10), listed(b"dir/second", 3), listed(b"dir/sub/third.txt", 4)]
    );
    assert_eq!(
        unpacked.files,
        vec![
            file(b"first.bin", b"0123456789"),
            file(b"dir/second", b"abc"),
            file(b"dir/sub/third.txt", b"XYZW"),
        ]
    );
    assert_eq!(unpacked.failure, None);
}

#[test]
fn payloads_are_cut_where_the_sizes_say() {
    // The payload area is one run of bytes: only the sizes tell the members apart.
    let members: [(&[u8], &[u8]); 4] = [(b"a", b"11"), (b"b", b""), (b"c", b"2"), (b"d", b"333")];
    let unpacked = unpack_mpkg(&archive(b"t", &members)).unwrap();
    assert_eq!(
        unpacked.files,
        vec![file(b"a", b"11"), file(b"b", b""), file(b"c", b"2"), file(b"d", b"333")]
    );
    assert_eq!(unpacked.failure, None);
}

#[test]
fn nested_names_are_kept_as_they_are() {
    let members: [(&[u8], &[u8]); 2] = [(b"a/b/c/d/e.txt", b"deep"), (b"a/b/f.txt", b"near")];
    let unpacked = unpack_mpkg(&archive(b"v1", &members)).unwrap();
    assert_eq!(unpacked.files[0].name_text(), "a/b/c/d/e.txt");
    assert_eq!(unpacked.files[1].name_text(), "a/b/f.txt");
    assert_eq!(unpacked.index.entries[0].name_text(), "a/b/c/d/e.txt");
    assert_eq!(unpacked.files[0].contents, b"deep");
    assert_eq!(unpacked.files[1].contents, b"near");
}

#[test]
fn bytes_after_the_last_payload_are_left_alone() {
    let mut bytes = archive(b"MPKG", &THREE);
    let whole = unpack_mpkg(&bytes).unwrap();
    bytes.extend_from_slice(&[0xaa; 5]);
    assert_eq!(unpack_mpkg(&bytes).unwrap(), whole);
}

#[test]
fn reserved_bytes_change_nothing() {
    let plain = archive(b"v1", &THREE);
    let mut marked = plain.clone();
    // The reserved field of the first entry follows the header and the name block.
    let at = 4 + 2 + 4 + 4 + THREE[0].0.len();
    marked[at..at + 4].copy_from_slice(&[0xde, 0xad, 0xbe, 0xef]);
    assert_ne!(plain, marked);
    assert_eq!(unpack_mpkg(&marked), unpack_mpkg(&plain));
}

#[test]
fn truncating_by_one_byte_fails_the_last_member() {
    let mut bytes = archive(b"MPKG", &THREE);
    bytes.pop();
    let unpacked = unpack_mpkg(&bytes).unwrap();
    assert_eq!(
        unpacked.failure,
        Some(UnpackError::TruncatedPayload { expected: 4, remaining: 1 })
    );
    assert_eq!(
        unpacked.files,
        vec![
            file(b"first.bin", b"0123456789"),
            file(b"dir/second", b"abc"),
            file(b"dir/sub/third.txt", b"XYZ"),
        ]
    );
    assert_eq!(unpacked.index.entries.len(), 3);
}

#[test]
fn truncating_a_single_member_archive_by_one_byte() {
    let members: [(&[u8], &[u8]); 1] = [(b"only", b"payload")];
    let mut bytes = archive(b"v1", &members);
    bytes.pop();
    let unpacked = unpack_mpkg(&bytes).unwrap();
    assert_eq!(
        unpacked.failure,
        Some(UnpackError::TruncatedPayload { expected: 7, remaining: 1 })
    );
    assert_eq!(unpacked.files, vec![file(b"only", b"payloa")]);
}

#[test]
fn cut_inside_the_table_fails_the_whole_archive() {
    let bytes = archive(b"MPKG", &THREE);
    for cut in 0..toc_len(b"MPKG", &THREE) {
        assert_eq!(unpack_mpkg(&bytes[..cut]), Err(UnpackError::TruncatedInput));
    }
}

#[test]
fn cut_inside_the_payloads_keeps_the_members_before() {
    let bytes = archive(b"MPKG", &THREE);
    let start = toc_len(b"MPKG", &THREE);
    let whole = unpack_mpkg(&bytes).unwrap();
    for cut in start..bytes.len() {
        let unpacked = unpack_mpkg(&bytes[..cut]).unwrap();
        assert_eq!(unpacked.header, whole.header);
        assert_eq!(unpacked.index, whole.index);
        let held = cut - start;
        // The member in which the cut falls, and where its payload starts.
        let (failed, begins) = if held < 10 {
            (0, 0)
        } else if held < 13 {
            (1, 10)
        } else {
            (2, 13)
        };
        assert_eq!(unpacked.files.len(), failed + 1);
        assert_eq!(unpacked.files[..failed], whole.files[..failed]);
        let last = &unpacked.files[failed];
        assert_eq!(last.name, whole.files[failed].name);
        assert_eq!(last.contents, whole.files[failed].contents[..held - begins]);
        let expected = whole.files[failed].contents.len() as u64;
        assert_eq!(
            unpacked.failure,
            Some(UnpackError::TruncatedPayload {
                expected,
                remaining: expected - (held - begins) as u64,
            })
        );
    }
}

#[test]
fn empty_members_need_no_bytes() {
    let members: [(&[u8], &[u8]); 3] = [(b"a", b"xy"), (b"empty", b""), (b"also-empty", b"")];
    let bytes = archive(b"v1", &members);
    let unpacked = unpack_mpkg(&bytes).unwrap();
    assert_eq!(unpacked.failure, None);
    assert_eq!(unpacked.files, vec![file(b"a", b"xy"), file(b"empty", b""), file(b"also-empty", b"")]);

    // With the payload of the first member cut, the empty ones are never reached.
    let unpacked = unpack_mpkg(&bytes[..bytes.len() - 1]).unwrap();
    assert_eq!(unpacked.files, vec![file(b"a", b"x")]);
    assert_eq!(
        unpacked.failure,
        Some(UnpackError::TruncatedPayload { expected: 2, remaining: 1 })
    );
}

#[test]
fn member_count_beyond_the_table_is_cut_short() {
    let mut bytes = archive(b"v1", &THREE);
    // Declare one member more than the table holds.
    bytes[6..10].copy_from_slice(&4u32.to_le_bytes());
    assert_eq!(unpack_mpkg(&bytes), Err(UnpackError::TruncatedInput));
}

#[test]
fn empty_input_is_cut_short() {
    assert_eq!(unpack_mpkg(&[]), Err(UnpackError::TruncatedInput));
}

#[test]
fn declared_size_far_beyond_the_input() {
    let mut bytes = length_prefixed(b"v1");
    bytes.extend_from_slice(&1u32.to_le_bytes());
    bytes.extend(length_prefixed(b"big"));
    bytes.extend_from_slice(&[0; 4]);
    bytes.extend_from_slice(&u32::MAX.to_le_bytes());
    bytes.extend_from_slice(b"abc");
    let unpacked = unpack_mpkg(&bytes).unwrap();
    assert_eq!(unpacked.files, vec![file(b"big", b"abc")]);
    assert_eq!(
        unpacked.failure,
        Some(UnpackError::TruncatedPayload {
            expected: u32::MAX as u64,
            remaining: u32::MAX as u64 - 3,
        })
    );
}

#[test]
fn names_that_are_not_text_are_kept_as_bytes() {
    let name = [b'x', 0xff, b'/', 0xc0, b'y'];
    let members: [(&[u8], &[u8]); 1] = [(&name, b"data")];
    let unpacked = unpack_mpkg(&archive(&[0x80, 0x81], &members)).unwrap();
    assert_eq!(unpacked.header.format_tag, [0x80, 0x81]);
    assert_eq!(unpacked.header.format_text(), "\u{fffd}\u{fffd}");
    assert_eq!(unpacked.files[0].name, name);
    assert_eq!(unpacked.files[0].name_text(), "x\u{fffd}/\u{fffd}y");
    assert_eq!(unpacked.files[0].contents, b"data");
}

#[test]
fn extract_members_reads_from_where_the_input_stands() {
    let index = ArchiveIndex { entries: vec![listed(b"a", 2), listed(b"b", 3)] };
    let data = b"--AABBBrest";
    let mut input = ByteReader::new(data);
    input.skip(2).unwrap();
    let (files, failure) = extract_members(&mut input, &index);
    assert_eq!(files, vec![file(b"a", b"AA"), file(b"b", b"BBB")]);
    assert_eq!(failure, None);
    assert_eq!(input.read(10), b"rest");
}

#[test]
fn extract_members_stops_at_the_first_short_payload() {
    let index = ArchiveIndex { entries: vec![listed(b"a", 2), listed(b"b", 3), listed(b"c", 0)] };
    let data = b"AAB";
    let mut input = ByteReader::new(data);
    let (files, failure) = extract_members(&mut input, &index);
    assert_eq!(files, vec![file(b"a", b"AA"), file(b"b", b"B")]);
    assert_eq!(failure, Some(UnpackError::TruncatedPayload { expected: 3, remaining: 2 }));
    assert_eq!(input.remaining(), 0);
}

#[test]
fn extract_members_of_an_empty_index() {
    let index = ArchiveIndex { entries: Vec::new() };
    let data = b"abc";
    let mut input = ByteReader::new(data);
    let (files, failure) = extract_members(&mut input, &index);
    assert!(files.is_empty());
    assert_eq!(failure, None);
    assert_eq!(input.remaining(), 3);
}

#[test]
fn large_member_spans_several_copy_steps() {
    let payload: Vec<u8> = (0..2_500_000usize).map(|i| (i % 253) as u8).collect();
    let members: [(&[u8], &[u8]); 2] = [(b"big.bin", &payload), (b"after", b"tail")];
    let bytes = archive(b"v1", &members);
    let unpacked = unpack_mpkg(&bytes).unwrap();
    assert_eq!(unpacked.failure, None);
    assert_eq!(unpacked.files.len(), 2);
    assert!(unpacked.files[0].contents == payload);
    assert_eq!(unpacked.files[1], file(b"after", b"tail"));
}

//! Decoding of a whole archive: the header, the table of contents, and the
//! payload of each member in the order of the table.
//!
//! The payloads follow the table of contents back to back. There is no
//! table of offsets: each payload starts where the one before it ends.

use vstd::prelude::*;
use vstd::slice::slice_to_vec;
use vstd::utf8::{decode_utf8, valid_utf8};
use crate::archive::{
    lemma_parse_index_bounds, lemma_parse_toc_prefix, parse_header, parse_index, parse_toc,
    read_header, read_index, same_prefix, ArchiveHeader, ArchiveIndex, EntryView, HeaderView,
};
use crate::error::UnpackError;
use crate::stream::{copy_stream_data, transferred, ByteReader};
use crate::text::{decode_lossy, lossy_text};

verus! {

/// One member as it is to be written out: its name and the bytes of its
/// payload.
#[derive(Debug, PartialEq, Eq)]
pub struct ExtractedFile {
    /// Name of the member, as the bytes that the archive holds.
    pub name: Vec<u8>,
    /// The payload, or the part of it that the archive held.
    pub contents: Vec<u8>,
}

/// What decoding an archive yields.
#[derive(Debug, PartialEq, Eq)]
pub struct Unpacked {
    pub header: ArchiveHeader,
    pub index: ArchiveIndex,
    /// The members that extraction reached, in the order of the table. When
    /// `failure` is set the last one is the member whose payload was cut
    /// short, with the bytes that were there.
    pub files: Vec<ExtractedFile>,
    /// Set when the input ended inside a payload.
    pub failure: Option<UnpackError>,
}

/// Mathematical value of an `ExtractedFile`.
pub struct FileView {
    pub name: Seq<u8>,
    pub contents: Seq<u8>,
}

/// Mathematical value of an `Unpacked`.
pub struct UnpackedView {
    pub header: HeaderView,
    pub index: Seq<EntryView>,
    pub files: Seq<FileView>,
    pub failure: Option<UnpackError>,
}

impl View for ExtractedFile {
    type V = FileView;

    open spec fn view(&self) -> FileView {
        FileView { name: self.name@, contents: self.contents@ }
    }
}

impl ExtractedFile {
    /// The member's name as text, read permissively.
    pub fn name_text(&self) -> (text: String)
        ensures
            text@ == lossy_text(self.name@),
            valid_utf8(self.name@) ==> text@ == decode_utf8(self.name@),
    {
        decode_lossy(self.name.as_slice())
    }
}

/// The values of a sequence of files, one for one.
pub open spec fn files_view(files: Seq<ExtractedFile>) -> Seq<FileView> {
    Seq::new(files.len(), |i: int| files[i]@)
}

impl View for Unpacked {
    type V = UnpackedView;

    open spec fn view(&self) -> UnpackedView {
        UnpackedView {
            header: self.header@,
            index: self.index@,
            files: files_view(self.files@),
            failure: self.failure,
        }
    }
}

/// Sum of the payload sizes of `index`.
pub open spec fn total_size(index: Seq<EntryView>) -> int
    decreases index.len(),
{
    if index.len() == 0 {
        0
    } else {
        total_size(index.drop_last()) + index.last().size
    }
}

/// Where the payload of member `i` starts, counted from the end of the
/// table of contents: the sizes of the members before it, added up.
pub open spec fn payload_start(index: Seq<EntryView>, i: int) -> int {
    total_size(index.take(i))
}

/// How many members, from the first on, have their whole payload within
/// `available` bytes.
pub open spec fn complete_members(index: Seq<EntryView>, available: int) -> int
    decreases index.len(),
{
    if index.len() == 0 || total_size(index) <= available {
        index.len() as int
    } else {
        complete_members(index.drop_last(), available)
    }
}

/// Member `i` as extraction leaves it: its payload region, cut off where
/// `payloads` ends.
pub open spec fn member_file(payloads: Seq<u8>, index: Seq<EntryView>, i: int) -> FileView {
    let start = payload_start(index, i);
    let end = payload_start(index, i + 1);
    FileView {
        name: index[i].name,
        contents: payloads.subrange(
            start,
            if end <= payloads.len() {
                end
            } else {
                payloads.len() as int
            },
        ),
    }
}

/// The files and the failure that extraction yields from the bytes that
/// follow the table of contents. Every complete member becomes a file. The
/// first member that is cut short becomes a file too, with the bytes that
/// are there, and ends the extraction.
pub open spec fn extraction(payloads: Seq<u8>, index: Seq<EntryView>) -> (Seq<FileView>, Option<
    UnpackError,
>) {
    let done = complete_members(index, payloads.len() as int);
    if done == index.len() {
        (Seq::new(index.len(), |i: int| member_file(payloads, index, i)), None)
    } else {
        (
            Seq::new((done + 1) as nat, |i: int| member_file(payloads, index, i)),
            Some(
                UnpackError::TruncatedPayload {
                    expected: index[done].size as u64,
                    remaining: (payload_start(index, done + 1) - payloads.len()) as u64,
                },
            ),
        )
    }
}

/// What decoding makes of `archive`, or `None` when the header or the table
/// of contents is cut short.
pub open spec fn unpack(archive: Seq<u8>) -> Option<UnpackedView> {
    match parse_toc(archive) {
        Some((header, index, start)) => {
            let (files, failure) = extraction(archive.skip(start), index);
            Some(UnpackedView { header, index, files, failure })
        },
        None => None,
    }
}

/// Each payload starts where the one before it ends.
pub proof fn lemma_payload_step(index: Seq<EntryView>, i: int)
    requires
        0 <= i < index.len(),
    ensures
        payload_start(index, i + 1) == payload_start(index, i) + index[i].size,
{
    assert(index.take(i + 1).drop_last() =~= index.take(i));
}

/// The payloads lie in the order of the table: a later member never starts
/// before an earlier one.
pub proof fn lemma_payload_order(index: Seq<EntryView>, i: int, j: int)
    requires
        0 <= i <= j <= index.len(),
    ensures
        0 <= payload_start(index, i) <= payload_start(index, j),
    decreases j,
{
    if i < j {
        lemma_payload_order(index, i, j - 1);
        lemma_payload_step(index, j - 1);
    } else if 0 < i {
        lemma_payload_order(index, i - 1, i - 1);
        lemma_payload_step(index, i - 1);
    }
}

/// The payloads of the complete members lie within the bytes that are
/// there.
pub proof fn lemma_complete_bound(index: Seq<EntryView>, available: int)
    ensures
        0 <= complete_members(index, available) <= index.len(),
        0 <= available ==> payload_start(index, complete_members(index, available)) <= available,
    decreases index.len(),
{
    assert(index.take(index.len() as int) =~= index);
    if index.len() == 0 {
    } else if total_size(index) <= available {
    } else {
        let shorter = index.drop_last();
        lemma_complete_bound(shorter, available);
        assert(shorter.take(complete_members(shorter, available)) =~= index.take(
            complete_members(shorter, available),
        ));
    }
}

/// The first member that is not complete does not fit in the bytes that
/// are there.
pub proof fn lemma_complete_next(index: Seq<EntryView>, available: int)
    requires
        complete_members(index, available) < index.len(),
    ensures
        payload_start(index, complete_members(index, available) + 1) > available,
    decreases index.len(),
{
    assert(index.take(index.len() as int) =~= index);
    let shorter = index.drop_last();
    let done = complete_members(shorter, available);
    lemma_complete_bound(shorter, available);
    if done < shorter.len() {
        lemma_complete_next(shorter, available);
        assert(shorter.take(done + 1) =~= index.take(done + 1));
    }
}

/// The number of complete members is the one place in the table where the
/// payloads stop fitting.
pub proof fn lemma_complete_members(index: Seq<EntryView>, available: int, k: int)
    requires
        0 <= k <= index.len(),
        payload_start(index, k) <= available,
        k < index.len() ==> payload_start(index, k + 1) > available,
    ensures
        complete_members(index, available) == k,
    decreases index.len(),
{
    assert(index.take(index.len() as int) =~= index);
    if index.len() == 0 {
    } else if total_size(index) <= available {
        if k < index.len() {
            lemma_payload_order(index, k + 1, index.len() as int);
        }
    } else {
        let shorter = index.drop_last();
        assert(shorter.take(k) =~= index.take(k));
        if k < shorter.len() {
            assert(shorter.take(k + 1) =~= index.take(k + 1));
        }
        lemma_complete_members(shorter, available, k);
    }
}

/// Copies the payload of each member of `index` out of `input`, in the order
/// of the table, and stops at the first payload that the input cuts short.
pub fn extract_members(input: &mut ByteReader, index: &ArchiveIndex) -> (r: (
    Vec<ExtractedFile>,
    Option<UnpackError>,
))
    ensures
        (files_view(r.0@), r.1) == extraction(old(input)@, index@),
        final(input)@ == old(input)@.skip(
            transferred(total_size(index@), old(input)@.len() as int),
        ),
{
    let ghost payloads = input@;
    let count: usize = index.entries.len();
    let mut files: Vec<ExtractedFile> = Vec::new();
    let mut i: usize = 0;
    while i < count
        invariant
            i <= count == index.entries@.len(),
            files@.len() == i,
            payloads == old(input)@,
            payload_start(index@, i as int) <= payloads.len(),
            input@ == payloads.skip(payload_start(index@, i as int)),
            files_view(files@) == Seq::new(i as nat, |j: int| member_file(payloads, index@, j)),
        decreases count - i,
    {
        let entry = &index.entries[i];
        let mut contents: Vec<u8> = Vec::new();
        let copied = copy_stream_data(input, &mut contents, entry.size as u64);
        let name = slice_to_vec(entry.name.as_slice());
        let file = ExtractedFile { name, contents };
        proof {
            let start = payload_start(index@, i as int);
            lemma_payload_order(index@, 0, i as int);
            lemma_payload_step(index@, i as int);
            let moved = transferred(entry.size as int, payloads.len() - start);
            assert(payloads.skip(start).take(moved) =~= payloads.subrange(start, start + moved));
            assert forall|j: int| 0 <= j <= i implies files_view(files@.push(file))[j]
                == member_file(payloads, index@, j) by {
                if j < i {
                    assert(files_view(files@)[j] == member_file(payloads, index@, j));
                }
            }
        }
        files.push(file);
        match copied {
            Ok(_) => {},
            Err(e) => {
                proof {
                    lemma_complete_members(index@, payloads.len() as int, i as int);
                    lemma_payload_order(index@, i + 1, count as int);
                }
                return (files, Some(e));
            },
        }
        i = i + 1;
    }
    proof {
        assert(index@.take(count as int) =~= index@);
        lemma_complete_members(index@, payloads.len() as int, count as int);
    }
    (files, None)
}

/// Decodes an archive: reads the header and the table of contents, then
/// extracts the members in the order of the table.
///
/// A header or a table that is cut short fails the whole archive. A payload
/// that is cut short ends the extraction: the files before it are complete,
/// the file of that member holds what was there, and `failure` tells what is
/// missing.
pub fn unpack_mpkg(archive: &[u8]) -> (r: Result<Unpacked, UnpackError>)
    ensures
        match r {
            Ok(unpacked) => unpack(archive@) == Some(unpacked@),
            Err(e) => unpack(archive@) is None && e == UnpackError::TruncatedInput,
        },
{
    let mut input = ByteReader::new(archive);
    let header = match read_header(&mut input) {
        Ok(header) => header,
        Err(e) => {
            return Err(e);
        },
    };
    let ghost table = input@;
    let index = match read_index(&mut input, header.member_count) {
        Ok(index) => index,
        Err(e) => {
            return Err(e);
        },
    };
    proof {
        let (_, n) = parse_header(archive@).unwrap();
        let (_, m) = parse_index(table, header.member_count as nat).unwrap();
        lemma_parse_index_bounds(table, header.member_count as nat);
        assert(archive@.skip(n).skip(m) =~= archive@.skip(n + m));
    }
    let (files, failure) = extract_members(&mut input, &index);
    Ok(Unpacked { header, index, files, failure })
}

/// An archive that declares no members decodes to an empty table of
/// contents and to no files, whatever follows its header.
pub proof fn law_no_members(archive: Seq<u8>)
    requires
        parse_header(archive) is Some,
        parse_header(archive).unwrap().0.member_count == 0,
    ensures
        unpack(archive) matches Some(unpacked) && {
            &&& unpacked.index.len() == 0
            &&& unpacked.files.len() == 0
            &&& unpacked.failure is None
        },
{
}

/// Extraction succeeds exactly when every payload that the table of contents
/// declares is there. Each file then has its member's name and the bytes of
/// its payload region, which is as long as the table says.
pub proof fn law_all_members(archive: Seq<u8>)
    requires
        parse_toc(archive) is Some,
    ensures
        ({
            let (header, index, start) = parse_toc(archive).unwrap();
            let unpacked = unpack(archive).unwrap();
            &&& index.len() == header.member_count
            &&& unpacked.failure is None <==> start + total_size(index) <= archive.len()
            &&& unpacked.failure is None ==> unpacked.files.len() == index.len()
            &&& forall|i: int|
                #![trigger unpacked.files[i]]
                unpacked.failure is None && 0 <= i < index.len() ==> {
                    &&& unpacked.files[i].name == index[i].name
                    &&& unpacked.files[i].contents == archive.subrange(
                        start + payload_start(index, i),
                        start + payload_start(index, i) + index[i].size,
                    )
                }
        }),
{
    let (header, index, start) = parse_toc(archive).unwrap();
    let n = parse_header(archive).unwrap().1;
    lemma_parse_index_bounds(archive.skip(n), header.member_count);
    let payloads = archive.skip(start);
    let count = index.len() as int;
    assert(index.take(count) =~= index);
    if start + total_size(index) <= archive.len() {
        lemma_complete_members(index, payloads.len() as int, count);
        assert forall|i: int| 0 <= i < count implies member_file(payloads, index, i).contents
            == archive.subrange(
            start + payload_start(index, i),
            start + payload_start(index, i) + index[i].size,
        ) by {
            lemma_payload_order(index, 0, i);
            lemma_payload_order(index, i + 1, count);
            lemma_payload_step(index, i);
        }
    } else {
        if complete_members(index, payloads.len() as int) == count {
            lemma_complete_bound(index, payloads.len() as int);
        }
    }
}

/// When extraction fails, it fails at the last file. The files before it
/// are complete. The last file holds all that the input had left, which is
/// less than its member's size, and the failure tells that size and how
/// many bytes are missing.
pub proof fn law_short_member(archive: Seq<u8>)
    requires
        unpack(archive) is Some,
        unpack(archive).unwrap().failure is Some,
    ensures
        ({
            let (_, index, start) = parse_toc(archive).unwrap();
            let unpacked = unpack(archive).unwrap();
            let last = unpacked.files.len() - 1;
            &&& 0 <= last < index.len()
            &&& forall|i: int|
                #![trigger unpacked.files[i]]
                0 <= i < last ==> {
                    &&& unpacked.files[i].name == index[i].name
                    &&& unpacked.files[i].contents.len() == index[i].size
                }
            &&& unpacked.files[last].name == index[last].name
            &&& unpacked.files[last].contents.len() < index[last].size
            &&& start + payload_start(index, last) + unpacked.files[last].contents.len()
                == archive.len()
            &&& unpacked.failure == Some(
                UnpackError::TruncatedPayload {
                    expected: index[last].size as u64,
                    remaining: (index[last].size - unpacked.files[last].contents.len()) as u64,
                },
            )
        }),
{
    let (header, index, start) = parse_toc(archive).unwrap();
    let n = parse_header(archive).unwrap().1;
    lemma_parse_index_bounds(archive.skip(n), header.member_count);
    let payloads = archive.skip(start);
    let available = payloads.len() as int;
    let last = complete_members(index, available);
    let files = extraction(payloads, index).0;
    lemma_complete_bound(index, available);
    lemma_complete_next(index, available);
    lemma_payload_step(index, last);
    lemma_payload_order(index, 0, last);
    assert forall|i: int| 0 <= i < last implies (#[trigger] files[i]).name == index[i].name
        && files[i].contents.len() == index[i].size by {
        lemma_payload_order(index, 0, i);
        lemma_payload_order(index, i + 1, last);
        lemma_payload_step(index, i);
    }
}

/// Cutting the last byte off an archive that ends with its last payload
/// leaves every member but the last as it was. The last member loses that
/// one byte, and its extraction fails with one byte missing.
pub proof fn law_truncated_by_one(archive: Seq<u8>)
    requires
        parse_toc(archive) is Some,
        ({
            let (_, index, start) = parse_toc(archive).unwrap();
            &&& archive.len() == start + total_size(index)
            &&& index.len() > 0
            &&& index.last().size > 0
        }),
    ensures
        unpack(archive) matches Some(whole) && unpack(archive.drop_last()) matches Some(cut) && {
            &&& whole.failure is None
            &&& cut.header == whole.header
            &&& cut.index == whole.index
            &&& cut.files.len() == whole.files.len() == whole.index.len()
            &&& forall|i: int| 0 <= i < cut.files.len() - 1 ==> cut.files[i] == whole.files[i]
            &&& cut.files.last().name == whole.files.last().name
            &&& cut.files.last().contents == whole.files.last().contents.drop_last()
            &&& cut.failure == Some(
                UnpackError::TruncatedPayload {
                    expected: whole.index.last().size as u64,
                    remaining: 1,
                },
            )
        },
{
    let (header, index, start) = parse_toc(archive).unwrap();
    let n = parse_header(archive).unwrap().1;
    lemma_parse_index_bounds(archive.skip(n), header.member_count);
    let short = archive.drop_last();
    let count = index.len() as int;
    lemma_payload_order(index, 0, count - 1);
    lemma_payload_step(index, count - 1);
    lemma_parse_toc_prefix(archive, short);
    let payloads = archive.skip(start);
    let fewer = short.skip(start);
    lemma_complete_members(index, payloads.len() as int, count);
    lemma_complete_members(index, fewer.len() as int, count - 1);
    let whole = unpack(archive).unwrap();
    let cut = unpack(short).unwrap();
    assert forall|i: int| 0 <= i < count - 1 implies cut.files[i] == whole.files[i] by {
        lemma_payload_order(index, 0, i);
        lemma_payload_order(index, i + 1, count - 1);
        lemma_payload_step(index, i);
        assert(member_file(fewer, index, i).contents =~= member_file(payloads, index, i).contents);
    }
}

} // verus!

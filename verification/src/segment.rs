//! Segments: one data file of raw payloads and the index that locates them.

use vstd::prelude::*;
use vstd::slice::{slice_subrange, slice_to_vec};
use vstd::std_specs::convert::FromSpecImpl;
use crate::index::{
    decode_entries, encode_entries, lemma_entries_round_trip, lemma_file_round_trip, Index,
    IndexEntry, ENTRY_WIDTH,
};
use crate::path::{
    decimal_value, file_stem, index_name, joined, parent_dir, parent_of, parse_u64, stem_of,
};

verus! {

/// `std::io::Error`, carried through untouched: the engine never looks
/// inside one.
#[verifier::external_type_specification]
#[verifier::external_body]
pub struct ExIoError(std::io::Error);

/// Why a segment could not be constructed.
#[derive(Debug)]
pub enum SegmentError {
    /// A segment or index file could not be opened, created or inspected.
    /// The engine does no such thing and never fails this way; the variant
    /// is for whoever keeps the files on disk.
    FileError(std::io::Error),
    /// A file or directory name does not denote the id it should.
    InvalidPath,
    /// The length of an index file is not a whole number of records.
    CorruptIndex,
}

/// Why an append to a segment failed on its way to disk. An append in
/// memory cannot fail; the type is for whoever keeps the files on disk.
#[derive(Debug)]
pub enum SegmentWriteError {
    /// Writing to the data file or to the index file failed.
    WriteError(std::io::Error),
}

impl From<std::io::Error> for SegmentError {
    fn from(err: std::io::Error) -> (e: SegmentError) {
        SegmentError::FileError(err)
    }
}

impl FromSpecImpl<std::io::Error> for SegmentError {
    open spec fn obeys_from_spec() -> bool {
        true
    }

    open spec fn from_spec(err: std::io::Error) -> SegmentError {
        SegmentError::FileError(err)
    }
}

impl From<std::io::Error> for SegmentWriteError {
    fn from(err: std::io::Error) -> (e: SegmentWriteError) {
        SegmentWriteError::WriteError(err)
    }
}

impl FromSpecImpl<std::io::Error> for SegmentWriteError {
    open spec fn obeys_from_spec() -> bool {
        true
    }

    open spec fn from_spec(err: std::io::Error) -> SegmentWriteError {
        SegmentWriteError::WriteError(err)
    }
}

/// Why a record could not be read back.
#[derive(Clone, Copy, Debug, PartialEq, Eq, Structural)]
pub enum SegmentReadError {
    /// The data file holds fewer bytes at the record's position than the
    /// record's size.
    ShortRead,
}

/// Size in bytes beyond which a partition stops writing to a segment and
/// opens the next one.
pub const MAX_SEGMENT_BYTES: u64 = 1024;

/// What is on disk of a segment whose data file exists: the bytes of its two
/// files.
#[derive(Debug)]
pub struct SegmentFiles {
    /// The contents of the data file.
    pub data: Vec<u8>,
    /// The contents of the index file.
    pub index: Vec<u8>,
}

/// An append-only store of records: the data file that holds the payloads
/// one after the other, and the index that says where each one lies.
#[derive(Debug)]
pub struct Segment {
    /// The partition that the segment belongs to.
    pub partition_id: u64,
    /// The id of the segment, read from the name of its data file.
    pub segment_id: u64,
    /// The path of the data file.
    pub file_name: String,
    /// The contents of the data file.
    pub data: Vec<u8>,
    /// Number of records in the segment.
    pub records: u64,
    /// Number of payload bytes in the segment; the position of the next
    /// record.
    pub bytes_consumed: u64,
    /// The index of the segment.
    pub index: Index,
}

/// Whether the offsets count up from 0 without gap or repeat.
pub open spec fn dense(entries: Seq<IndexEntry>) -> bool {
    forall|i: int| 0 <= i < entries.len() ==> (#[trigger] entries[i]).offset == i
}

/// Whether the offsets strictly ascend.
pub open spec fn ascending(entries: Seq<IndexEntry>) -> bool {
    forall|i: int, j: int|
        0 <= i < j < entries.len() ==> (#[trigger] entries[i]).offset < (#[trigger] entries[j]).offset
}

/// Whether some entry carries `offset`.
pub open spec fn has_offset(entries: Seq<IndexEntry>, offset: u64) -> bool {
    exists|i: int| 0 <= i < entries.len() && (#[trigger] entries[i]).offset == offset
}

/// The entry that carries `offset`, if there is one. Where the offsets
/// ascend there is at most one.
pub open spec fn entry_for(entries: Seq<IndexEntry>, offset: u64) -> Option<IndexEntry> {
    if has_offset(entries, offset) {
        Some(
            entries[choose|i: int|
                0 <= i < entries.len() && (#[trigger] entries[i]).offset == offset],
        )
    } else {
        None
    }
}

/// The sum of the sizes of `entries`.
pub open spec fn total_size(entries: Seq<IndexEntry>) -> nat
    decreases entries.len(),
{
    if entries.len() == 0 {
        0
    } else {
        total_size(entries.drop_last()) + entries.last().size as nat
    }
}

/// Whether each record starts where the one before it ends, the first one
/// at 0.
pub open spec fn contiguous(entries: Seq<IndexEntry>) -> bool {
    forall|i: int|
        0 <= i < entries.len() ==> (#[trigger] entries[i]).position == total_size(entries.take(i))
}

/// The bytes of the record that `entry` locates in a data file holding
/// `data`; `None` when the file holds fewer bytes there than the record's
/// size. A record of size 0 can be read anywhere.
pub open spec fn content_at(data: Seq<u8>, entry: IndexEntry) -> Option<Seq<u8>> {
    if entry.size == 0 {
        Some(Seq::empty())
    } else if entry.position + entry.size <= data.len() {
        Some(data.subrange(entry.position as int, entry.position + entry.size))
    } else {
        None
    }
}

/// The contents of the data file on disk; empty where there is none.
pub open spec fn on_disk_data(on_disk: Option<SegmentFiles>) -> Seq<u8> {
    match on_disk {
        Some(files) => files.data@,
        None => Seq::empty(),
    }
}

/// The contents of the index file on disk; empty where there is no data
/// file.
pub open spec fn on_disk_index(on_disk: Option<SegmentFiles>) -> Seq<u8> {
    match on_disk {
        Some(files) => files.index@,
        None => Seq::empty(),
    }
}

/// Whether the files on disk are those of a segment in step: the offsets of
/// the index file count up from 0, and its records fill the data file from
/// front to end. No files at all are in step.
pub open spec fn on_disk_in_step(on_disk: Option<SegmentFiles>) -> bool {
    let entries = decode_entries(on_disk_index(on_disk));
    &&& dense(entries)
    &&& contiguous(entries)
    &&& total_size(entries) == on_disk_data(on_disk).len()
}

impl Segment {
    /// The invariant of every segment: the counters say what the data file
    /// and the index hold, and the index file is a whole number of records.
    pub open spec fn wf(&self) -> bool {
        &&& self.bytes_consumed == self.data@.len()
        &&& self.records == self.index.entries@.len()
        &&& self.index.file@.len() % (ENTRY_WIDTH as nat) == 0
        &&& self.index.segment_id == self.segment_id
    }

    /// Whether the segment is in step: the index file holds exactly the
    /// entries in memory, their offsets count up from 0, and their records
    /// fill the data file from front to end. A fresh segment is in step, and
    /// `append_one` keeps it so.
    pub open spec fn in_step(&self) -> bool {
        &&& self.wf()
        &&& self.index.file@ == encode_entries(self.index.entries@)
        &&& dense(self.index.entries@)
        &&& contiguous(self.index.entries@)
        &&& total_size(self.index.entries@) == self.data@.len()
    }

    /// The payloads of the records, in index order. A record that the data
    /// file does not hold in full counts as empty.
    pub open spec fn payloads(&self) -> Seq<Seq<u8>> {
        Seq::new(
            self.index.entries@.len(),
            |i: int|
                match content_at(self.data@, self.index.entries@[i]) {
                    Some(bytes) => bytes,
                    None => Seq::empty(),
                },
        )
    }

    /// Whether the segment holds what `on_disk` holds: the data file and the
    /// index file as they are on disk, and in memory the entries of the index
    /// file.
    pub open spec fn loaded_from(&self, on_disk: Option<SegmentFiles>) -> bool {
        &&& self.data@ == on_disk_data(on_disk)
        &&& self.index.file@ == on_disk_index(on_disk)
        &&& self.index.entries@ == decode_entries(on_disk_index(on_disk))
    }

    /// Whether `self` is the segment that opening the data file `seg_fname`
    /// of partition `partition_id` gives, where `on_disk` is what the disk
    /// holds of it: `None` when the data file does not exist.
    pub open spec fn opened_from(
        &self,
        partition_id: u64,
        seg_fname: String,
        idx_fname: String,
        on_disk: Option<SegmentFiles>,
    ) -> bool {
        &&& self.wf()
        &&& self.partition_id == partition_id
        &&& decimal_value(stem_of(seg_fname@)) == Some(self.segment_id)
        &&& self.file_name == seg_fname
        &&& self.loaded_from(on_disk)
        &&& match on_disk {
            Some(_) => self.index.file_name == idx_fname,
            None => self.index.file_name@ == joined(
                parent_of(seg_fname@),
                index_name(self.segment_id),
            ),
        }
    }

    /// The entry that the next record of `size` bytes gets.
    pub open spec fn next_entry(&self, size: nat) -> IndexEntry {
        IndexEntry {
            offset: self.records,
            position: self.bytes_consumed,
            size: size as u64,
            timestamp: 0,
        }
    }

    /// Whether `self` is `before` with `data` appended as one record: the
    /// payload at the end of the data file, its entry at the end of the index
    /// file and of the entries in memory.
    pub open spec fn appended_to(&self, before: Segment, data: Seq<u8>) -> bool {
        let entry = before.next_entry(data.len());
        &&& self.partition_id == before.partition_id
        &&& self.segment_id == before.segment_id
        &&& self.file_name == before.file_name
        &&& self.index.segment_id == before.index.segment_id
        &&& self.index.file_name == before.index.file_name
        &&& self.data@ == before.data@ + data
        &&& self.index.file@ == before.index.file@ + entry.encoding()
        &&& self.index.entries@ == before.index.entries@.push(entry)
        &&& self.records == before.records + 1
        &&& self.bytes_consumed == before.bytes_consumed + data.len()
    }

    /// Opens the segment whose data file is `seg_fname`. The segment id is
    /// the stem of that name, read as a decimal number. `on_disk` is what the
    /// disk holds of the segment. With `Some` files the segment is recovered
    /// from them: the data file as it is, the index loaded from the bytes of
    /// `idx_fname`, and the counters set to what the two hold. With `None`
    /// the segment starts empty, and its index file is `<segment_id>.index`
    /// beside the data file.
    pub fn new(
        partition_id: u64,
        seg_fname: String,
        idx_fname: String,
        on_disk: Option<SegmentFiles>,
    ) -> (opened: Result<Self, SegmentError>)
        ensures
            match opened {
                Ok(segment) => {
                    &&& segment.opened_from(partition_id, seg_fname, idx_fname, on_disk)
                    &&& on_disk_index(on_disk).len() % (ENTRY_WIDTH as nat) == 0
                    &&& segment.bytes_consumed == on_disk_data(on_disk).len()
                    &&& segment.records == decode_entries(on_disk_index(on_disk)).len()
                    &&& segment.in_step() <==> on_disk_in_step(on_disk)
                    &&& on_disk is None ==> segment.in_step() && segment.payloads().len() == 0
                },
                Err(SegmentError::InvalidPath) => decimal_value(stem_of(seg_fname@)) is None,
                Err(SegmentError::CorruptIndex) => {
                    &&& decimal_value(stem_of(seg_fname@)) is Some
                    &&& on_disk matches Some(files) && files.index@.len() % (ENTRY_WIDTH as nat)
                        != 0
                },
                Err(SegmentError::FileError(_)) => false,
            },
    {
        let segment_id = match parse_u64(file_stem(seg_fname.as_str())) {
            Some(id) => id,
            None => {
                return Err(SegmentError::InvalidPath);
            },
        };
        match on_disk {
            Some(files) => {
                let bytes_consumed = files.data.len() as u64;
                let index = match Index::read_from_file(segment_id, idx_fname, files.index) {
                    Ok(index) => index,
                    Err(_) => {
                        return Err(SegmentError::CorruptIndex);
                    },
                };
                let records = index.entries.len() as u64;
                proof {
                    lemma_file_round_trip(index.file@);
                }
                Ok(
                    Segment {
                        partition_id: partition_id,
                        segment_id: segment_id,
                        file_name: seg_fname,
                        data: files.data,
                        records: records,
                        bytes_consumed: bytes_consumed,
                        index: index,
                    },
                )
            },
            None => {
                let index = Index::new(segment_id, parent_dir(seg_fname.as_str()));
                proof {
                    assert(decode_entries(Seq::<u8>::empty()) =~= Seq::<IndexEntry>::empty());
                    lemma_file_round_trip(Seq::<u8>::empty());
                }
                Ok(
                    Segment {
                        partition_id: partition_id,
                        segment_id: segment_id,
                        file_name: seg_fname,
                        data: Vec::new(),
                        records: 0,
                        bytes_consumed: 0,
                        index: index,
                    },
                )
            },
        }
    }
}

impl Segment {
    /// Tests the invariant of the segment, for callers that built or changed
    /// a segment by hand.
    pub fn is_wf(&self) -> (ok: bool)
        ensures
            ok == self.wf(),
    {
        self.bytes_consumed == self.data.len() as u64 && self.records
            == self.index.entries.len() as u64 && self.index.file.len() % ENTRY_WIDTH == 0
            && self.index.segment_id == self.segment_id
    }

    /// Appends `data` as one record and returns its entry: offset and
    /// position are the record count and the byte count before the append,
    /// the timestamp is 0. The payload goes to the end of the data file, the
    /// entry to the end of the index file and of the entries in memory.
    pub fn append_one(&mut self, data: &[u8]) -> (entry: IndexEntry)
        requires
            old(self).wf(),
        ensures
            entry == old(self).next_entry(data@.len()),
            entry.size == data@.len(),
            final(self).wf(),
            final(self).appended_to(*old(self), data@),
            old(self).in_step() ==> final(self).in_step() && final(self).payloads() == old(
                self,
            ).payloads().push(data@),
    {
        let entry = IndexEntry::new(self.records, self.bytes_consumed, data.len() as u64, 0);
        self.data.extend_from_slice(data);
        assert(self.data@ =~= old(self).data@ + data@);
        assert(self.data@.len() == self.data.len());
        self.bytes_consumed = self.bytes_consumed + data.len() as u64;
        self.index.write(&entry);
        self.index.entries.push(entry);
        assert(self.index.entries@.len() == self.index.entries.len());
        self.records = self.records + 1;
        proof {
            if old(self).in_step() {
                lemma_append_one_in_step(*old(self), *self, data@);
            }
        }
        entry
    }

    /// Appends `data` as one block of several records, located by
    /// `index_entries`. The entries go to the end of the entries in memory;
    /// the index file stays as it is.
    pub fn append(&mut self, data: &[u8], index_entries: Vec<IndexEntry>)
        requires
            old(self).wf(),
        ensures
            final(self).wf(),
            final(self).data@ == old(self).data@ + data@,
            final(self).index.entries@ == old(self).index.entries@ + index_entries@,
            final(self).index.file == old(self).index.file,
            final(self).records == old(self).records + index_entries@.len(),
            final(self).bytes_consumed == old(self).bytes_consumed + data@.len(),
            final(self).partition_id == old(self).partition_id,
            final(self).segment_id == old(self).segment_id,
            final(self).file_name == old(self).file_name,
            final(self).index.segment_id == old(self).index.segment_id,
            final(self).index.file_name == old(self).index.file_name,
    {
        self.data.extend_from_slice(data);
        let mut index_entries = index_entries;
        let count = index_entries.len();
        self.index.entries.append(&mut index_entries);
        assert(self.data@.len() == self.data.len());
        assert(self.index.entries@.len() == self.index.entries.len());
        self.bytes_consumed = self.bytes_consumed + data.len() as u64;
        self.records = self.records + count as u64;
    }

    /// Looks up the entry of the record at `offset` by binary search. Where
    /// the offsets of the index ascend, the result is the one entry that
    /// carries `offset`, or `None` when no entry does.
    pub fn get_index_for_offset(&self, offset: u64) -> (found: Option<IndexEntry>)
        ensures
            found matches Some(entry) ==> entry.offset == offset && self.index.entries@.contains(
                entry,
            ),
            ascending(self.index.entries@) ==> found == entry_for(self.index.entries@, offset),
            self.wf() && dense(self.index.entries@) ==> found == (if offset < self.records {
                Some(self.index.entries@[offset as int])
            } else {
                None
            }),
    {
        let mut low: usize = 0;
        let mut high: usize = self.index.entries.len();
        while low < high
            invariant
                low <= high <= self.index.entries@.len(),
                ascending(self.index.entries@) ==> forall|i: int|
                    0 <= i < low ==> (#[trigger] self.index.entries@[i]).offset < offset,
                ascending(self.index.entries@) ==> forall|i: int|
                    high <= i < self.index.entries@.len() ==> (
                    #[trigger] self.index.entries@[i]).offset > offset,
            decreases high - low,
        {
            let mid = low + (high - low) / 2;
            let entry = self.index.entries[mid];
            if entry.offset == offset {
                proof {
                    lemma_entry_for(self.index.entries@, offset, mid as int);
                    if self.wf() && dense(self.index.entries@) {
                        lemma_dense_ascends(self.index.entries@);
                    }
                }
                return Some(entry);
            } else if entry.offset < offset {
                low = mid + 1;
            } else {
                high = mid;
            }
        }
        proof {
            if self.wf() && dense(self.index.entries@) {
                lemma_dense_ascends(self.index.entries@);
            }
        }
        None
    }

    /// Reads the payload of the record at `offset`: exactly `size` bytes of
    /// the data file from `position` on, as the record's entry says.
    /// `Ok(None)` when no entry carries `offset`; `ShortRead` when the data
    /// file holds fewer bytes there than the entry's size.
    pub fn read_content_at_offset(&self, offset: u64) -> (content: Result<
        Option<Vec<u8>>,
        SegmentReadError,
    >)
        ensures
            match content {
                Ok(Some(bytes)) => exists|entry: IndexEntry|
                    #![trigger self.index.entries@.contains(entry)]
                    self.index.entries@.contains(entry) && entry.offset == offset && content_at(
                        self.data@,
                        entry,
                    ) == Some(bytes@),
                Ok(None) => ascending(self.index.entries@) ==> !has_offset(
                    self.index.entries@,
                    offset,
                ),
                Err(SegmentReadError::ShortRead) => exists|entry: IndexEntry|
                    #![trigger self.index.entries@.contains(entry)]
                    self.index.entries@.contains(entry) && entry.offset == offset && content_at(
                        self.data@,
                        entry,
                    ) is None,
            },
            ascending(self.index.entries@) ==> match entry_for(self.index.entries@, offset) {
                None => content == Ok::<Option<Vec<u8>>, SegmentReadError>(None),
                Some(entry) => match content_at(self.data@, entry) {
                    Some(bytes) => content matches Ok(Some(read)) && read@ == bytes,
                    None => content == Err::<Option<Vec<u8>>, SegmentReadError>(
                        SegmentReadError::ShortRead,
                    ),
                },
            },
            self.in_step() ==> (if offset < self.records {
                content matches Ok(Some(read)) && read@ == self.payloads()[offset as int]
            } else {
                content == Ok::<Option<Vec<u8>>, SegmentReadError>(None)
            }),
    {
        proof {
            if self.in_step() {
                lemma_dense_ascends(self.index.entries@);
                if offset < self.records {
                    lemma_in_step_reads(*self, offset as int);
                }
            }
        }
        match self.get_index_for_offset(offset) {
            None => Ok(None),
            Some(entry) => {
                let len = self.data.len();
                if entry.size == 0 {
                    Ok(Some(Vec::new()))
                } else if entry.position > len as u64 || entry.size > len as u64 - entry.position {
                    Err(SegmentReadError::ShortRead)
                } else {
                    let start = entry.position as usize;
                    let end = (entry.position + entry.size) as usize;
                    let bytes = slice_to_vec(slice_subrange(self.data.as_slice(), start, end));
                    Ok(Some(bytes))
                }
            },
        }
    }
}

/// Offsets that count up from 0 ascend.
pub proof fn lemma_dense_ascends(entries: Seq<IndexEntry>)
    requires
        dense(entries),
    ensures
        ascending(entries),
{
}

/// Where the offsets ascend, an entry that carries `offset` is the entry
/// for it.
pub proof fn lemma_entry_for(entries: Seq<IndexEntry>, offset: u64, k: int)
    requires
        0 <= k < entries.len(),
        entries[k].offset == offset,
    ensures
        has_offset(entries, offset),
        entries.contains(entries[k]),
        ascending(entries) ==> entry_for(entries, offset) == Some(entries[k]),
{
}

/// The sizes of the first `i` entries sum to no more than the sizes of all.
pub proof fn lemma_total_size_take(entries: Seq<IndexEntry>, i: int)
    requires
        0 <= i <= entries.len(),
    ensures
        total_size(entries.take(i)) <= total_size(entries),
    decreases entries.len() - i,
{
    if i < entries.len() {
        lemma_total_size_take(entries.drop_last(), i);
        assert(entries.drop_last().take(i) =~= entries.take(i));
    } else {
        assert(entries.take(i) =~= entries);
    }
}

/// Among contiguous entries each record ends within the sum of all sizes.
pub proof fn lemma_record_in_bounds(entries: Seq<IndexEntry>, i: int)
    requires
        contiguous(entries),
        0 <= i < entries.len(),
    ensures
        entries[i].position + entries[i].size <= total_size(entries),
{
    lemma_total_size_take(entries, i + 1);
    assert(entries.take(i + 1).drop_last() =~= entries.take(i));
}

/// In a segment in step each offset below the record count finds its entry,
/// and the entry locates its payload in full.
pub proof fn lemma_in_step_reads(segment: Segment, k: int)
    requires
        segment.in_step(),
        0 <= k < segment.records,
    ensures
        entry_for(segment.index.entries@, k as u64) == Some(segment.index.entries@[k]),
        content_at(segment.data@, segment.index.entries@[k]) == Some(segment.payloads()[k]),
{
    let entries = segment.index.entries@;
    lemma_dense_ascends(entries);
    lemma_entry_for(entries, k as u64, k);
    lemma_record_in_bounds(entries, k);
}

/// One append keeps a segment in step and adds its payload after the
/// payloads that the segment held.
pub proof fn lemma_append_one_in_step(before: Segment, after: Segment, data: Seq<u8>)
    requires
        before.in_step(),
        after.wf(),
        after.appended_to(before, data),
        data.len() <= u64::MAX,
    ensures
        after.in_step(),
        after.payloads() == before.payloads().push(data),
{
    let old_entries = before.index.entries@;
    let entries = after.index.entries@;
    let entry = before.next_entry(data.len());
    assert(entries.drop_last() =~= old_entries);
    assert forall|i: int| 0 <= i < entries.len() implies (#[trigger] entries[i]).position
        == total_size(entries.take(i)) by {
        if i < old_entries.len() {
            assert(entries.take(i) =~= old_entries.take(i));
        }
    }
    assert forall|i: int| 0 <= i < entries.len() implies after.payloads()[i]
        == before.payloads().push(data)[i] by {
        if i < old_entries.len() {
            lemma_record_in_bounds(old_entries, i);
            if entries[i].size > 0 {
                assert(after.data@.subrange(
                    entries[i].position as int,
                    entries[i].position + entries[i].size,
                ) =~= before.data@.subrange(
                    entries[i].position as int,
                    entries[i].position + entries[i].size,
                ));
            }
        } else if entry.size > 0 {
            assert(after.data@.subrange(entry.position as int, entry.position + entry.size)
                =~= data);
        }
    }
}

/// Round trip. A segment in step that is opened again from its own two
/// files comes back in step, with the same entries and the same payloads:
/// every offset below the record count finds its entry again, and the entry
/// reads back the payload that was appended.
pub proof fn lemma_reopen_in_step(
    written: Segment,
    reopened: Segment,
    partition_id: u64,
    seg_fname: String,
    idx_fname: String,
    files: SegmentFiles,
)
    requires
        written.in_step(),
        files.data@ == written.data@,
        files.index@ == written.index.file@,
        reopened.opened_from(partition_id, seg_fname, idx_fname, Some(files)),
    ensures
        reopened.in_step(),
        reopened.index.entries@ == written.index.entries@,
        reopened.records == written.records,
        reopened.bytes_consumed == written.bytes_consumed,
        reopened.payloads() == written.payloads(),
        forall|k: int|
            0 <= k < written.records ==> {
                &&& entry_for(reopened.index.entries@, k as u64) == Some(
                    #[trigger] written.index.entries@[k],
                )
                &&& content_at(reopened.data@, written.index.entries@[k]) == Some(
                    written.payloads()[k],
                )
            },
{
    lemma_entries_round_trip(written.index.entries@);
    assert forall|k: int| 0 <= k < written.records implies {
        &&& entry_for(reopened.index.entries@, k as u64) == Some(
            #[trigger] written.index.entries@[k],
        )
        &&& content_at(reopened.data@, written.index.entries@[k]) == Some(written.payloads()[k])
    } by {
        lemma_in_step_reads(reopened, k);
    }
}

/// Recovery is repeatable. Opening a segment from its files leaves the
/// files as they are, and opening it once more from them gives the same
/// entries, the same data and the same counters.
pub proof fn lemma_recovery_repeatable(
    first: Segment,
    second: Segment,
    partition_id: u64,
    seg_fname: String,
    idx_fname: String,
    files: SegmentFiles,
    files_after: SegmentFiles,
)
    requires
        first.opened_from(partition_id, seg_fname, idx_fname, Some(files)),
        files_after.data@ == first.data@,
        files_after.index@ == first.index.file@,
        second.opened_from(partition_id, seg_fname, idx_fname, Some(files_after)),
    ensures
        files_after.data@ == files.data@,
        files_after.index@ == files.index@,
        second.index.entries@ == first.index.entries@,
        second.index.file@ == first.index.file@,
        second.data@ == first.data@,
        second.records == first.records,
        second.bytes_consumed == first.bytes_consumed,
        second.segment_id == first.segment_id,
{
}

/// A segment recovered from files holds in memory exactly what its index
/// file holds: the file is the encoding of the entries.
pub proof fn lemma_recovered_index_agrees(
    segment: Segment,
    partition_id: u64,
    seg_fname: String,
    idx_fname: String,
    files: SegmentFiles,
)
    requires
        segment.opened_from(partition_id, seg_fname, idx_fname, Some(files)),
    ensures
        segment.index.file@ == encode_entries(segment.index.entries@),
{
    lemma_file_round_trip(files.index@);
}

/// Offsets count up. The index file of a segment in step, read in file
/// order, holds as many entries as the segment has records, and their
/// offsets are 0, 1, 2 and so on, without gap or repeat.
pub proof fn lemma_in_step_offsets(segment: Segment)
    requires
        segment.in_step(),
    ensures
        decode_entries(segment.index.file@) == segment.index.entries@,
        decode_entries(segment.index.file@).len() == segment.records,
        forall|i: int|
            0 <= i < segment.records ==> (#[trigger] decode_entries(
                segment.index.file@,
            )[i]).offset == i,
{
    lemma_entries_round_trip(segment.index.entries@);
}

} // verus!

//! The positional index of a segment and its fixed-width binary records.
//!
//! An index file is a plain run of records, without header or footer. Each
//! record is 32 bytes wide: the four fields `offset`, `position`, `size` and
//! `timestamp`, in that order, each as an 8-byte little-endian unsigned
//! integer.

use vstd::prelude::*;
use vstd::bytes::{
    lemma_auto_spec_u64_to_from_le_bytes, spec_u64_from_le_bytes, spec_u64_to_le_bytes,
    u64_from_le_bytes, u64_to_le_bytes,
};
use vstd::slice::slice_subrange;
use crate::path::{index_file_name, index_name, join_path, joined};
use crate::segment::SegmentError;

verus! {

/// Width in bytes of one record of an index file.
pub const ENTRY_WIDTH: usize = 32;

/// One record of a segment's index: where a payload lies in the data file.
#[derive(Clone, Copy, Debug, PartialEq, Eq, Structural)]
pub struct IndexEntry {
    /// Logical position of the record within its segment, counted from 0.
    pub offset: u64,
    /// Byte position of the payload within the segment's data file.
    pub position: u64,
    /// Length of the payload in bytes.
    pub size: u64,
    /// Creation time in epoch units.
    pub timestamp: u64,
}

impl IndexEntry {
    /// The 32 bytes that stand for this entry in an index file.
    pub open spec fn encoding(self) -> Seq<u8> {
        spec_u64_to_le_bytes(self.offset) + spec_u64_to_le_bytes(self.position)
            + spec_u64_to_le_bytes(self.size) + spec_u64_to_le_bytes(self.timestamp)
    }

    /// The entry that a 32-byte record stands for.
    pub open spec fn decoding(bytes: Seq<u8>) -> IndexEntry
        recommends
            bytes.len() == ENTRY_WIDTH,
    {
        IndexEntry {
            offset: spec_u64_from_le_bytes(bytes.subrange(0, 8)),
            position: spec_u64_from_le_bytes(bytes.subrange(8, 16)),
            size: spec_u64_from_le_bytes(bytes.subrange(16, 24)),
            timestamp: spec_u64_from_le_bytes(bytes.subrange(24, 32)),
        }
    }

    /// Builds an entry from its four fields.
    pub fn new(offset: u64, pos: u64, size: u64, ts: u64) -> (entry: Self)
        ensures
            entry == (IndexEntry { offset: offset, position: pos, size: size, timestamp: ts }),
    {
        IndexEntry { offset: offset, position: pos, size: size, timestamp: ts }
    }

    /// Serializes the entry to its fixed-width record.
    pub fn to_bytes(&self) -> (bytes: Vec<u8>)
        ensures
            bytes@ == self.encoding(),
            bytes@.len() == ENTRY_WIDTH,
    {
        proof {
            lemma_auto_spec_u64_to_from_le_bytes();
        }
        let mut bytes = u64_to_le_bytes(self.offset);
        let mut position = u64_to_le_bytes(self.position);
        let mut size = u64_to_le_bytes(self.size);
        let mut timestamp = u64_to_le_bytes(self.timestamp);
        bytes.append(&mut position);
        bytes.append(&mut size);
        bytes.append(&mut timestamp);
        bytes
    }

    /// Reads an entry back from one record; `None` when `bytes` is not exactly
    /// one record wide.
    pub fn from_bytes(bytes: &[u8]) -> (entry: Option<Self>)
        ensures
            entry is Some <==> bytes@.len() == ENTRY_WIDTH,
            entry matches Some(e) ==> e == Self::decoding(bytes@),
    {
        if bytes.len() == ENTRY_WIDTH {
            Some(Self::decode_record(bytes))
        } else {
            None
        }
    }

    fn decode_record(bytes: &[u8]) -> (entry: Self)
        requires
            bytes@.len() == ENTRY_WIDTH,
        ensures
            entry == Self::decoding(bytes@),
    {
        IndexEntry {
            offset: u64_from_le_bytes(slice_subrange(bytes, 0, 8)),
            position: u64_from_le_bytes(slice_subrange(bytes, 8, 16)),
            size: u64_from_le_bytes(slice_subrange(bytes, 16, 24)),
            timestamp: u64_from_le_bytes(slice_subrange(bytes, 24, 32)),
        }
    }
}

/// The index of one segment: the entries in memory, in file order, and the
/// bytes of the file that backs them.
#[derive(Debug)]
pub struct Index {
    /// The segment that this index belongs to.
    pub segment_id: u64,
    /// The path of the index file.
    pub file_name: String,
    /// The contents of the index file.
    pub file: Vec<u8>,
    /// The entries held in memory.
    pub entries: Vec<IndexEntry>,
}

impl Index {
    /// A new, empty index for segment `segment_id`, backed by the file
    /// `<segment_id>.index` under `parent_dir`.
    pub fn new(segment_id: u64, parent_dir: &str) -> (index: Self)
        ensures
            index.segment_id == segment_id,
            index.file_name@ == joined(parent_dir@, index_name(segment_id)),
            index.file@ == Seq::<u8>::empty(),
            index.entries@ == Seq::<IndexEntry>::empty(),
    {
        let name = index_file_name(segment_id);
        Index {
            segment_id: segment_id,
            file_name: join_path(parent_dir, name.as_str()),
            file: Vec::new(),
            entries: Vec::new(),
        }
    }

    /// Appends the record of `entry` to the index file. The entries held in
    /// memory stay as they are.
    pub fn write(&mut self, entry: &IndexEntry)
        ensures
            final(self).file@ == old(self).file@ + entry.encoding(),
            final(self).file@.len() == old(self).file@.len() + ENTRY_WIDTH,
            final(self).entries == old(self).entries,
            final(self).segment_id == old(self).segment_id,
            final(self).file_name == old(self).file_name,
    {
        let mut record = entry.to_bytes();
        self.file.append(&mut record);
    }

    /// Loads the index of segment `segment_id` from `contents`, the bytes of
    /// its file `fname`. The entries come out in file order. A file that is
    /// not a whole number of records long is corrupt and is not loaded.
    pub fn read_from_file(segment_id: u64, fname: String, contents: Vec<u8>) -> (loaded: Result<
        Self,
        SegmentError,
    >)
        ensures
            loaded is Ok <==> contents@.len() % (ENTRY_WIDTH as nat) == 0,
            loaded matches Err(e) ==> e is CorruptIndex,
            loaded matches Ok(index) ==> {
                &&& index.segment_id == segment_id
                &&& index.file_name == fname
                &&& index.file == contents
                &&& index.entries@ == decode_entries(contents@)
            },
    {
        let len = contents.len();
        if len % ENTRY_WIDTH != 0 {
            return Err(SegmentError::CorruptIndex);
        }
        let mut entries: Vec<IndexEntry> = Vec::new();
        let mut at: usize = 0;
        while at < len
            invariant
                len == contents@.len(),
                len % 32 == 0,
                at <= len,
                at == 32 * entries@.len(),
                forall|j: int|
                    0 <= j < entries@.len() ==> entries@[j] == IndexEntry::decoding(
                        record_at(contents@, j),
                    ),
            decreases len - at,
        {
            let record = slice_subrange(contents.as_slice(), at, at + ENTRY_WIDTH);
            entries.push(IndexEntry::decode_record(record));
            at = at + ENTRY_WIDTH;
        }
        Ok(Index { segment_id: segment_id, file_name: fname, file: contents, entries: entries })
    }
}

/// The contents of an index file that holds `entries`, in order.
pub open spec fn encode_entries(entries: Seq<IndexEntry>) -> Seq<u8>
    decreases entries.len(),
{
    if entries.len() == 0 {
        Seq::empty()
    } else {
        encode_entries(entries.drop_last()) + entries.last().encoding()
    }
}

/// The `i`-th record of an index file.
pub open spec fn record_at(bytes: Seq<u8>, i: int) -> Seq<u8> {
    bytes.subrange(ENTRY_WIDTH * i, ENTRY_WIDTH * i + ENTRY_WIDTH)
}

/// The entries that an index file holds, in file order. A trailing partial
/// record, if any, is not part of the result.
pub open spec fn decode_entries(bytes: Seq<u8>) -> Seq<IndexEntry> {
    Seq::new(bytes.len() / (ENTRY_WIDTH as nat), |i: int| IndexEntry::decoding(record_at(bytes, i)))
}

/// Every record is exactly 32 bytes wide, and decoding it gives the entry back.
pub proof fn lemma_entry_round_trip(entry: IndexEntry)
    ensures
        entry.encoding().len() == ENTRY_WIDTH,
        IndexEntry::decoding(entry.encoding()) == entry,
{
    lemma_auto_spec_u64_to_from_le_bytes();
    let a = spec_u64_to_le_bytes(entry.offset);
    let b = spec_u64_to_le_bytes(entry.position);
    let c = spec_u64_to_le_bytes(entry.size);
    let d = spec_u64_to_le_bytes(entry.timestamp);
    let all = entry.encoding();
    assert(all.subrange(0, 8) =~= a);
    assert(all.subrange(8, 16) =~= b);
    assert(all.subrange(16, 24) =~= c);
    assert(all.subrange(24, 32) =~= d);
}

/// Encoding the entry that a 32-byte record stands for gives the record back.
pub proof fn lemma_record_round_trip(bytes: Seq<u8>)
    requires
        bytes.len() == ENTRY_WIDTH,
    ensures
        IndexEntry::decoding(bytes).encoding() == bytes,
{
    lemma_auto_spec_u64_to_from_le_bytes();
    assert(IndexEntry::decoding(bytes).encoding() =~= bytes.subrange(0, 8) + bytes.subrange(8, 16)
        + bytes.subrange(16, 24) + bytes.subrange(24, 32));
    assert(bytes.subrange(0, 8) + bytes.subrange(8, 16) + bytes.subrange(16, 24) + bytes.subrange(
        24,
        32,
    ) =~= bytes);
}

/// An index file of `n` entries is `32 * n` bytes long.
pub proof fn lemma_encode_entries_len(entries: Seq<IndexEntry>)
    ensures
        encode_entries(entries).len() == ENTRY_WIDTH * entries.len(),
    decreases entries.len(),
{
    if entries.len() > 0 {
        lemma_encode_entries_len(entries.drop_last());
        lemma_entry_round_trip(entries.last());
    }
}

/// Appending one record to a file of whole records appends its entry to what
/// the file holds.
pub proof fn lemma_decode_entries_push(bytes: Seq<u8>, entry: IndexEntry)
    requires
        bytes.len() % (ENTRY_WIDTH as nat) == 0,
    ensures
        decode_entries(bytes + entry.encoding()) == decode_entries(bytes).push(entry),
{
    lemma_entry_round_trip(entry);
    let grown = bytes + entry.encoding();
    let n = bytes.len() / (ENTRY_WIDTH as nat);
    assert forall|i: int| 0 <= i < n + 1 implies decode_entries(grown)[i] == decode_entries(
        bytes,
    ).push(entry)[i] by {
        if i < n {
            assert(record_at(grown, i) =~= record_at(bytes, i));
        } else {
            assert(record_at(grown, i) =~= entry.encoding());
        }
    }
}

/// Reading back the file that holds `entries` gives exactly `entries`.
pub proof fn lemma_entries_round_trip(entries: Seq<IndexEntry>)
    ensures
        decode_entries(encode_entries(entries)) == entries,
    decreases entries.len(),
{
    if entries.len() > 0 {
        let front = entries.drop_last();
        lemma_entries_round_trip(front);
        lemma_encode_entries_len(front);
        lemma_decode_entries_push(encode_entries(front), entries.last());
    }
}

/// A file of whole records is exactly the file that holds its entries.
pub proof fn lemma_file_round_trip(bytes: Seq<u8>)
    requires
        bytes.len() % (ENTRY_WIDTH as nat) == 0,
    ensures
        encode_entries(decode_entries(bytes)) == bytes,
    decreases bytes.len(),
{
    if bytes.len() > 0 {
        let cut = bytes.len() - ENTRY_WIDTH;
        let front = bytes.subrange(0, cut);
        let record = bytes.subrange(cut, bytes.len() as int);
        let entry = IndexEntry::decoding(record);
        lemma_record_round_trip(record);
        assert(front + entry.encoding() =~= bytes);
        lemma_file_round_trip(front);
        lemma_decode_entries_push(front, entry);
        let entries = decode_entries(bytes);
        assert(entries.drop_last() =~= decode_entries(front));
    }
}

} // verus!

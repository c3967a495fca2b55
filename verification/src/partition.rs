//! Partitions and topics: which segment a write goes to, and when the next
//! segment is opened.

use vstd::prelude::*;
use vstd::string::*;
use crate::index::{decode_entries, IndexEntry, ENTRY_WIDTH};
use crate::path::{
    decimal, decimal_value, format_u64, index_file_name, index_name, join_path, joined,
    lemma_decimal_digits, lemma_joined_last, lemma_segment_paths, log_file_name, log_name,
    parse_u64,
};
use crate::segment::{
    on_disk_data, on_disk_in_step, on_disk_index, Segment, SegmentError, SegmentFiles,
    MAX_SEGMENT_BYTES,
};

verus! {

/// One partition of a topic: the segment that takes the writes, and the
/// sealed segments before it.
#[derive(Debug)]
pub struct Partition {
    /// The id of the partition.
    pub partition_id: u64,
    /// The directory of the partition.
    pub partition_ws: String,
    /// The segment that takes the writes, once one is open.
    pub active_segment: Option<Segment>,
    /// The sealed segments, oldest first.
    pub old_segments: Vec<Segment>,
}

impl Partition {
    /// The invariant of every partition. The segments are numbered in the
    /// order in which they were opened: the sealed ones from 0 on, the active
    /// one after them. Every segment is well formed and lies in the
    /// partition's directory, which does not end in `/`.
    pub open spec fn wf(&self) -> bool {
        &&& self.partition_ws@.len() > 0 ==> self.partition_ws@.last() != '/'
        &&& forall|i: int|
            0 <= i < self.old_segments@.len() ==> self.holds(#[trigger] self.old_segments@[i], i)
        &&& match self.active_segment {
            Some(segment) => self.holds(segment, self.old_segments@.len() as int),
            None => self.old_segments@.len() == 0,
        }
    }

    /// Whether `segment` is a well-formed segment of this partition with id
    /// `id`, its two files named after the id in the partition's directory.
    pub open spec fn holds(&self, segment: Segment, id: int) -> bool {
        &&& segment.wf()
        &&& segment.segment_id == id
        &&& segment.partition_id == self.partition_id
        &&& segment.file_name@ == joined(self.partition_ws@, log_name(segment.segment_id))
        &&& segment.index.file_name@ == joined(
            self.partition_ws@,
            index_name(segment.segment_id),
        )
    }

    /// The id of the segment that has to be opened before `len` more bytes
    /// are written: 0 when no segment is open yet, the next id when the
    /// active segment would grow beyond `MAX_SEGMENT_BYTES`, and none when
    /// the active segment takes the bytes. A segment that carries the last
    /// id that 64 bits can hold has no next one and takes every write.
    pub open spec fn spec_segment_to_open(&self, len: nat) -> Option<u64> {
        match self.active_segment {
            None => Some(0),
            Some(segment) => if segment.bytes_consumed + len > MAX_SEGMENT_BYTES
                && segment.segment_id < u64::MAX {
                Some((segment.segment_id + 1) as u64)
            } else {
                None
            },
        }
    }

    /// Whether every segment of the partition, sealed or active, is in step.
    pub open spec fn in_step(&self) -> bool {
        &&& forall|i: int|
            0 <= i < self.old_segments@.len() ==> (#[trigger] self.old_segments@[i]).in_step()
        &&& self.active_segment matches Some(segment) ==> segment.in_step()
    }

    /// The id of the segment after the active one: 0 when no segment is open
    /// yet, and none when the active segment carries the last id that 64
    /// bits can hold.
    pub open spec fn next_segment_id(&self) -> Option<u64> {
        match self.active_segment {
            None => Some(0),
            Some(segment) => if segment.segment_id < u64::MAX {
                Some((segment.segment_id + 1) as u64)
            } else {
                None
            },
        }
    }

    /// The sealed segments once the active one, if any, is sealed too.
    pub open spec fn sealed(&self) -> Seq<Segment> {
        match self.active_segment {
            None => self.old_segments@,
            Some(segment) => self.old_segments@.push(segment),
        }
    }

    /// Whether `self` is `before` after the write of `data` as one record,
    /// with `on_disk` for the segment that the write may have to open, and
    /// `written` for what the write returned. The write fails only where it
    /// has to open a segment whose index file on disk is corrupt, and then
    /// leaves the partition as it was. Where it opens none, the record goes
    /// to the end of the active segment. Where it opens one, the active
    /// segment is sealed and the record is the first that is added to what
    /// the disk holds of the next segment.
    pub open spec fn wrote(
        &self,
        before: Partition,
        data: Seq<u8>,
        on_disk: Option<SegmentFiles>,
        written: Result<IndexEntry, SegmentError>,
    ) -> bool {
        &&& self.partition_id == before.partition_id
        &&& self.partition_ws == before.partition_ws
        &&& written is Err <==> before.spec_segment_to_open(data.len()) is Some && on_disk_index(
            on_disk,
        ).len() % (ENTRY_WIDTH as nat) != 0
        &&& written matches Err(e) ==> e is CorruptIndex && *self == before
        &&& written matches Ok(entry) ==> {
            &&& self.active_segment matches Some(after)
            &&& match before.spec_segment_to_open(data.len()) {
                None => {
                    &&& self.old_segments@ == before.old_segments@
                    &&& before.active_segment matches Some(segment)
                    &&& after.appended_to(segment, data)
                    &&& entry == segment.next_entry(data.len())
                },
                Some(id) => {
                    &&& self.old_segments@ == before.sealed()
                    &&& after.segment_id == id
                    &&& after.data@ == on_disk_data(on_disk) + data
                    &&& after.index.entries@ == decode_entries(on_disk_index(on_disk)).push(entry)
                    &&& after.index.file@ == on_disk_index(on_disk) + entry.encoding()
                    &&& entry.offset == decode_entries(on_disk_index(on_disk)).len()
                    &&& entry.position == on_disk_data(on_disk).len()
                    &&& entry.size == data.len()
                    &&& entry.timestamp == 0
                },
            }
        }
    }

    /// A new partition `partition_id` of the topic whose directory is
    /// `topic_path`: its directory is `<topic_path>/<partition_id>`, and it has
    /// no segment yet.
    pub fn new(topic_path: String, partition_id: u64) -> (partition: Self)
        ensures
            partition.wf(),
            partition.partition_id == partition_id,
            partition.partition_ws@ == joined(topic_path@, decimal(partition_id as nat)),
            partition.active_segment is None,
            partition.old_segments@.len() == 0,
    {
        let name = format_u64(partition_id);
        let partition_ws = join_path(topic_path.as_str(), name.as_str());
        proof {
            lemma_decimal_digits(partition_id as nat);
            lemma_joined_last(topic_path@, name@);
            let digits = decimal(partition_id as nat);
        }
        Partition {
            partition_id: partition_id,
            partition_ws: partition_ws,
            active_segment: None,
            old_segments: Vec::new(),
        }
    }

    /// The id of the segment that has to be opened before `len` more bytes
    /// are written, if one has to.
    pub fn segment_to_open(&self, len: usize) -> (id: Option<u64>)
        ensures
            id == self.spec_segment_to_open(len as nat),
    {
        match &self.active_segment {
            None => Some(0),
            Some(segment) => {
                let over = len as u64 > MAX_SEGMENT_BYTES || segment.bytes_consumed
                    > MAX_SEGMENT_BYTES - len as u64;
                if over && segment.segment_id < u64::MAX {
                    Some(segment.segment_id + 1)
                } else {
                    None
                }
            },
        }
    }

    /// The paths of the data file and of the index file of segment
    /// `segment_id` of this partition.
    pub fn segment_paths(&self, segment_id: u64) -> (paths: (String, String))
        ensures
            paths.0@ == joined(self.partition_ws@, log_name(segment_id)),
            paths.1@ == joined(self.partition_ws@, index_name(segment_id)),
    {
        let log = log_file_name(segment_id);
        let index = index_file_name(segment_id);
        (
            join_path(self.partition_ws.as_str(), log.as_str()),
            join_path(self.partition_ws.as_str(), index.as_str()),
        )
    }
}

impl Partition {
    /// Opens the next segment and makes it the active one: segment 0 where
    /// none is open yet, else the segment after the active one, which is
    /// sealed and goes to the end of the sealed segments. `on_disk` is what
    /// the disk holds of the segment to open: with `Some` files it is
    /// recovered from them, with `None` it starts empty. Where the index file
    /// on disk is corrupt the partition stays as it is.
    pub fn create_segment_and_assign(&mut self, on_disk: Option<SegmentFiles>) -> (created: Result<
        (),
        SegmentError,
    >)
        requires
            old(self).wf(),
        ensures
            final(self).wf(),
            final(self).partition_id == old(self).partition_id,
            final(self).partition_ws == old(self).partition_ws,
            created is Err <==> old(self).next_segment_id() is Some && on_disk_index(on_disk).len()
                % (ENTRY_WIDTH as nat) != 0,
            created matches Err(e) ==> e is CorruptIndex && *final(self) == *old(self),
            created is Ok ==> match old(self).next_segment_id() {
                Some(id) => {
                    &&& final(self).old_segments@ == old(self).sealed()
                    &&& final(self).active_segment matches Some(segment)
                    &&& segment.segment_id == id
                    &&& segment.loaded_from(on_disk)
                    &&& segment.in_step() <==> on_disk_in_step(on_disk)
                },
                None => *final(self) == *old(self),
            },
            old(self).in_step() && on_disk_in_step(on_disk) ==> final(self).in_step(),
    {
        let id: u64 = match &self.active_segment {
            None => 0,
            Some(segment) => {
                if segment.segment_id < u64::MAX {
                    segment.segment_id + 1
                } else {
                    return Ok(());
                }
            },
        };
        let (log, index) = self.segment_paths(id);
        proof {
            lemma_segment_paths(self.partition_ws@, id);
        }
        let segment = match Segment::new(self.partition_id, log, index, on_disk) {
            Ok(segment) => segment,
            Err(_) => {
                return Err(SegmentError::CorruptIndex);
            },
        };
        let previous = self.active_segment.take();
        match previous {
            Some(sealed) => {
                self.old_segments.push(sealed);
            },
            None => {},
        }
        self.active_segment = Some(segment);
        Ok(())
    }

    /// Writes `data` as one record to the active segment. Where a segment
    /// has to be opened first, because none is open yet or because the
    /// active one would grow beyond `MAX_SEGMENT_BYTES`, it is opened from
    /// `on_disk` as `create_segment_and_assign` does, and the record goes to
    /// the new segment: never to a sealed one. Where that segment's index
    /// file is corrupt nothing is written and the partition stays as it is.
    /// Where no segment has to be opened `on_disk` is not looked at.
    pub fn write_to_segment(&mut self, data: &[u8], on_disk: Option<SegmentFiles>) -> (written:
        Result<IndexEntry, SegmentError>)
        requires
            old(self).wf(),
        ensures
            final(self).wf(),
            final(self).wrote(*old(self), data@, on_disk, written),
            old(self).in_step() && (old(self).spec_segment_to_open(data@.len()) is Some
                ==> on_disk_in_step(on_disk)) ==> final(self).in_step(),
    {
        if self.segment_to_open(data.len()).is_some() {
            match self.create_segment_and_assign(on_disk) {
                Ok(()) => {},
                Err(e) => {
                    return Err(e);
                },
            }
        }
        let mut segment = self.active_segment.take().unwrap();
        let entry = segment.append_one(data);
        self.active_segment = Some(segment);
        Ok(entry)
    }
}

/// One entry of a topic's directory, as found on disk.
#[derive(Debug)]
pub struct DirEntry {
    /// The name of the entry, without the directory in front.
    pub name: String,
    /// Whether the entry is a directory.
    pub is_dir: bool,
}

/// A named topic: its partitions, the default partition 0 first.
#[derive(Debug)]
pub struct Topic {
    /// The name of the topic.
    pub name: String,
    /// The directory of the topic.
    pub topic_ws: String,
    /// The partitions of the topic.
    pub partitions: Vec<Partition>,
}

/// Whether a directory entry is the directory of a partition: a directory
/// whose name denotes an id.
pub open spec fn names_partition(entry: DirEntry) -> bool {
    entry.is_dir && decimal_value(entry.name@) is Some
}

/// Whether every entry is the directory of a partition.
pub open spec fn all_name_partitions(entries: Seq<DirEntry>) -> bool {
    forall|i: int| 0 <= i < entries.len() ==> names_partition(#[trigger] entries[i])
}

/// The ids of the partitions of a topic whose directory holds `entries`:
/// the default partition 0 first, then the other ids in the order of the
/// entries.
pub open spec fn listed_ids(entries: Seq<DirEntry>) -> Seq<u64>
    decreases entries.len(),
{
    if entries.len() == 0 {
        seq![0u64]
    } else {
        let front = listed_ids(entries.drop_last());
        match decimal_value(entries.last().name@) {
            Some(id) => if id == 0 {
                front
            } else {
                front.push(id)
            },
            None => front,
        }
    }
}

impl Topic {
    /// The invariant of every topic: it has partitions, the first of them is
    /// partition 0, and each is well formed and lies in the directory named
    /// after its id under the topic's directory.
    pub open spec fn wf(&self) -> bool {
        &&& self.partitions@.len() > 0
        &&& self.partitions@[0].partition_id == 0
        &&& forall|i: int|
            0 <= i < self.partitions@.len() ==> self.owns(#[trigger] self.partitions@[i])
    }

    /// Whether `partition` is a well-formed partition in this topic's
    /// directory.
    pub open spec fn owns(&self, partition: Partition) -> bool {
        &&& partition.wf()
        &&& partition.partition_ws@ == joined(
            self.topic_ws@,
            decimal(partition.partition_id as nat),
        )
    }

    /// The ids of the partitions, in order.
    pub open spec fn partition_ids(&self) -> Seq<u64> {
        Seq::new(self.partitions@.len(), |i: int| self.partitions@[i].partition_id)
    }

    /// Whether no partition has a segment yet.
    pub open spec fn without_segments(&self) -> bool {
        forall|i: int|
            0 <= i < self.partitions@.len() ==> (#[trigger] self.partitions@[i]).active_segment
                is None && self.partitions@[i].old_segments@.len() == 0
    }

    /// Opens the topic `topic_name` under `kafka_root_dir`; its directory is
    /// `<kafka_root_dir>/<topic_name>`. `existing` is what the disk holds of
    /// that directory: `None` when it does not exist, else its entries. A
    /// topic without a directory gets the one partition 0. A topic with a
    /// directory is rebuilt from its entries as `create_from_existing` does.
    pub fn new(kafka_root_dir: String, topic_name: String, existing: Option<Vec<DirEntry>>) -> (opened:
        Result<Self, SegmentError>)
        ensures
            opened is Err <==> (existing matches Some(entries) && !all_name_partitions(entries@)),
            opened matches Err(e) ==> e is InvalidPath,
            opened matches Ok(topic) ==> {
                &&& topic.wf()
                &&& topic.name == topic_name
                &&& topic.topic_ws@ == joined(kafka_root_dir@, topic_name@)
                &&& topic.without_segments()
                &&& topic.partition_ids() == match existing {
                    Some(entries) => listed_ids(entries@),
                    None => seq![0u64],
                }
            },
    {
        let topic_path = join_path(kafka_root_dir.as_str(), topic_name.as_str());
        match existing {
            Some(entries) => Topic::create_from_existing(topic_path, topic_name, entries),
            None => {
                let mut partitions: Vec<Partition> = Vec::new();
                partitions.push(Partition::new(topic_path.clone(), 0));
                let topic = Topic {
                    name: topic_name,
                    topic_ws: topic_path,
                    partitions: partitions,
                };
                Ok(topic)
            },
        }
    }

    /// Rebuilds the topic `name` whose directory `topic_path` holds
    /// `entries`. Every entry has to be a directory whose name denotes a
    /// partition id; one that is not makes the directory invalid. The topic
    /// gets partition 0 first, whether or not the directory holds it, and
    /// then one partition for each entry with another id, in the order of the
    /// entries. No partition has a segment yet: segments are opened by the
    /// first write.
    pub fn create_from_existing(topic_path: String, name: String, entries: Vec<DirEntry>) -> (opened:
        Result<Self, SegmentError>)
        ensures
            opened is Err <==> !all_name_partitions(entries@),
            opened matches Err(e) ==> e is InvalidPath,
            opened matches Ok(topic) ==> {
                &&& topic.wf()
                &&& topic.name == name
                &&& topic.topic_ws == topic_path
                &&& topic.without_segments()
                &&& topic.partition_ids() == listed_ids(entries@)
            },
    {
        let mut partitions: Vec<Partition> = Vec::new();
        partitions.push(Partition::new(topic_path.clone(), 0));
        let ghost mut ids: Seq<u64> = seq![0u64];
        let mut i: usize = 0;
        while i < entries.len()
            invariant
                i <= entries@.len(),
                all_name_partitions(entries@.take(i as int)),
                ids == listed_ids(entries@.take(i as int)),
                partitions@.len() == ids.len(),
                partitions@.len() > 0,
                partitions@[0].partition_id == 0,
                forall|k: int|
                    0 <= k < partitions@.len() ==> {
                        &&& (#[trigger] partitions@[k]).wf()
                        &&& partitions@[k].partition_id == ids[k]
                        &&& partitions@[k].partition_ws@ == joined(
                            topic_path@,
                            decimal(partitions@[k].partition_id as nat),
                        )
                        &&& partitions@[k].active_segment is None
                        &&& partitions@[k].old_segments@.len() == 0
                    },
            decreases entries@.len() - i,
        {
            let entry = &entries[i];
            let parsed = parse_u64(entry.name.as_str());
            proof {
                assert(entries@.take(i + 1).drop_last() =~= entries@.take(i as int));
            }
            if !entry.is_dir || parsed.is_none() {
                return Err(SegmentError::InvalidPath);
            }
            let id = parsed.unwrap();
            if id != 0 {
                partitions.push(Partition::new(topic_path.clone(), id));
                proof {
                    ids = ids.push(id);
                }
            }
            assert forall|k: int| 0 <= k < i + 1 implies names_partition(
                #[trigger] entries@.take(i + 1)[k],
            ) by {}
            i = i + 1;
        }
        assert(entries@.take(entries@.len() as int) =~= entries@);
        Ok(Topic { name: name, topic_ws: topic_path, partitions: partitions })
    }

    /// The partition that takes the writes: partition 0.
    pub fn get_default_partition(&self) -> (partition: &Partition)
        requires
            self.wf(),
        ensures
            *partition == self.partitions@[0],
            partition.partition_id == 0,
    {
        &self.partitions[0]
    }
}

impl Topic {
    /// The partition that takes the writes, to write to it.
    pub fn get_default_partition_mut(&mut self) -> (partition: &mut Partition)
        requires
            old(self).wf(),
        ensures
            *partition == old(self).partitions@[0],
            final(self).partitions@ == old(self).partitions@.update(0, *final(partition)),
            final(self).name == old(self).name,
            final(self).topic_ws == old(self).topic_ws,
    {
        &mut self.partitions[0]
    }

    /// Writes `data` as one record to the default partition, as
    /// `Partition::write_to_segment` does, with `on_disk` for the segment that
    /// the write may have to open. The other partitions stay as they are.
    pub fn write(&mut self, data: &[u8], on_disk: Option<SegmentFiles>) -> (written: Result<
        IndexEntry,
        SegmentError,
    >)
        requires
            old(self).wf(),
        ensures
            final(self).wf(),
            final(self).name == old(self).name,
            final(self).topic_ws == old(self).topic_ws,
            final(self).partitions@.len() == old(self).partitions@.len(),
            final(self).partitions@[0].wrote(old(self).partitions@[0], data@, on_disk, written),
            forall|i: int|
                0 < i < old(self).partitions@.len() ==> final(self).partitions@[i] == old(
                    self,
                ).partitions@[i],
    {
        let partition = self.get_default_partition_mut();
        partition.write_to_segment(data, on_disk)
    }
}

impl Partition {
    /// Tests whether `segment` is a well-formed segment of this partition
    /// with id `id`.
    fn is_held(&self, segment: &Segment, id: u64) -> (ok: bool)
        ensures
            ok == self.holds(*segment, id as int),
    {
        if !(segment.is_wf() && segment.segment_id == id && segment.partition_id
            == self.partition_id) {
            return false;
        }
        let (log, index) = self.segment_paths(id);
        segment.file_name == log && segment.index.file_name == index
    }

    /// Tests the invariant of the partition, for callers that built or
    /// changed a partition by hand.
    pub fn is_wf(&self) -> (ok: bool)
        ensures
            ok == self.wf(),
    {
        let ws = self.partition_ws.as_str();
        let n = ws.unicode_len();
        if n > 0 && ws.get_char(n - 1) == '/' {
            return false;
        }
        let count = self.old_segments.len();
        let mut i: usize = 0;
        while i < count
            invariant
                i <= count,
                count == self.old_segments@.len(),
                forall|k: int| 0 <= k < i ==> self.holds(#[trigger] self.old_segments@[k], k),
            decreases count - i,
        {
            if !self.is_held(&self.old_segments[i], i as u64) {
                return false;
            }
            i = i + 1;
        }
        match &self.active_segment {
            Some(segment) => self.is_held(segment, count as u64),
            None => count == 0,
        }
    }
}

impl Topic {
    /// Tests the invariant of the topic, for callers that built or changed a
    /// topic by hand.
    pub fn is_wf(&self) -> (ok: bool)
        ensures
            ok == self.wf(),
    {
        let count = self.partitions.len();
        if count == 0 || self.partitions[0].partition_id != 0 {
            return false;
        }
        let mut i: usize = 0;
        while i < count
            invariant
                i <= count,
                count == self.partitions@.len(),
                forall|k: int| 0 <= k < i ==> self.owns(#[trigger] self.partitions@[k]),
            decreases count - i,
        {
            let partition = &self.partitions[i];
            let name = format_u64(partition.partition_id);
            let ws = join_path(self.topic_ws.as_str(), name.as_str());
            if !(partition.is_wf() && partition.partition_ws == ws) {
                return false;
            }
            i = i + 1;
        }
        true
    }
}

} // verus!

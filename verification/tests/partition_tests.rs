use log_appender::index::IndexEntry;
use log_appender::partition::{DirEntry, Partition, Topic};
use log_appender::segment::{SegmentError, SegmentFiles};

fn dir(name: &str) -> DirEntry {
    DirEntry { name: name.to_owned(), is_dir: true }
}

fn file(name: &str) -> DirEntry {
    DirEntry { name: name.to_owned(), is_dir: false }
}

fn ids(topic: &Topic) -> Vec<u64> {
    topic.partitions.iter().map(|p| p.partition_id).collect()
}

#[test]
fn create_partition() {
    let mut topic = Topic::new(".".to_owned(), "topic-1".to_owned(), None).unwrap();
    let entry = topic.write(b"this is some data", None).unwrap();
    assert_eq!(entry, IndexEntry::new(0, 0, 17, 0));
    let partition = topic.get_default_partition();
    let segment = partition.active_segment.as_ref().unwrap();
    assert_eq!(segment.file_name, "./topic-1/0/0.log");
    assert_eq!(segment.data, b"this is some data".to_vec());
    assert_eq!(segment.read_content_at_offset(0), Ok(Some(b"this is some data".to_vec())));
}

#[test]
fn fresh_topic_has_partition_zero_with_an_empty_segment() {
    let mut topic = Topic::new("root".to_owned(), "orders".to_owned(), None).unwrap();
    assert_eq!(topic.name, "orders");
    assert_eq!(topic.topic_ws, "root/orders");
    assert_eq!(topic.partitions.len(), 1);
    assert_eq!(topic.partitions[0].partition_id, 0);
    assert_eq!(topic.partitions[0].partition_ws, "root/orders/0");
    assert!(topic.partitions[0].active_segment.is_none());
    assert!(topic.partitions[0].old_segments.is_empty());
    topic.get_default_partition_mut().create_segment_and_assign(None).unwrap();
    let segment = topic.partitions[0].active_segment.as_ref().unwrap();
    assert_eq!(segment.segment_id, 0);
    assert_eq!(segment.partition_id, 0);
    assert_eq!(segment.file_name, "root/orders/0/0.log");
    assert_eq!(segment.index.file_name, "root/orders/0/0.index");
    assert_eq!(segment.data.len(), 0);
    assert_eq!(segment.index.file.len(), 0);
    assert_eq!(segment.bytes_consumed, 0);
    assert_eq!(segment.records, 0);
}

#[test]
fn new_partition_lies_under_the_topic() {
    let partition = Partition::new("root/orders".to_owned(), 12);
    assert_eq!(partition.partition_id, 12);
    assert_eq!(partition.partition_ws, "root/orders/12");
    assert!(partition.active_segment.is_none());
    assert!(partition.old_segments.is_empty());
    assert_eq!(Partition::new("".to_owned(), 3).partition_ws, "3");
    assert_eq!(Partition::new("/".to_owned(), 3).partition_ws, "/3");
}

#[test]
fn segment_paths_are_named_after_the_id() {
    let partition = Partition::new("t".to_owned(), 1);
    let (log, index) = partition.segment_paths(5);
    assert_eq!(log, "t/1/5.log");
    assert_eq!(index, "t/1/5.index");
}

#[test]
fn first_write_opens_segment_zero() {
    let mut partition = Partition::new("t".to_owned(), 4);
    assert_eq!(partition.segment_to_open(3), Some(0));
    assert_eq!(partition.segment_to_open(0), Some(0));
    let entry = partition.write_to_segment(b"abc", None).unwrap();
    assert_eq!(entry, IndexEntry::new(0, 0, 3, 0));
    let segment = partition.active_segment.as_ref().unwrap();
    assert_eq!(segment.segment_id, 0);
    assert_eq!(segment.partition_id, 4);
    assert_eq!(segment.file_name, "t/4/0.log");
    assert_eq!(segment.index.file_name, "t/4/0.index");
    assert!(partition.old_segments.is_empty());
    assert_eq!(partition.segment_to_open(3), None);
}

#[test]
fn writes_go_to_the_active_segment_until_it_is_full() {
    let mut partition = Partition::new("t".to_owned(), 0);
    partition.write_to_segment(&[1u8; 1000], None).unwrap();
    assert_eq!(partition.segment_to_open(24), None);
    assert_eq!(partition.segment_to_open(25), Some(1));
    let entry = partition.write_to_segment(&[2u8; 24], None).unwrap();
    assert_eq!(entry, IndexEntry::new(1, 1000, 24, 0));
    assert!(partition.old_segments.is_empty());
    assert_eq!(partition.active_segment.as_ref().unwrap().bytes_consumed, 1024);
    assert_eq!(partition.segment_to_open(0), None);
    assert_eq!(partition.segment_to_open(1), Some(1));
}

#[test]
fn a_full_segment_is_sealed_and_the_next_one_opened() {
    let mut partition = Partition::new("t".to_owned(), 0);
    partition.write_to_segment(&[1u8; 1024], None).unwrap();
    let entry = partition.write_to_segment(b"x", None).unwrap();
    assert_eq!(entry, IndexEntry::new(0, 0, 1, 0));
    assert_eq!(partition.old_segments.len(), 1);
    let sealed = &partition.old_segments[0];
    assert_eq!(sealed.segment_id, 0);
    assert_eq!(sealed.bytes_consumed, 1024);
    assert_eq!(sealed.records, 1);
    assert_eq!(sealed.data, vec![1u8; 1024]);
    let active = partition.active_segment.as_ref().unwrap();
    assert_eq!(active.segment_id, 1);
    assert_eq!(active.file_name, "t/0/1.log");
    assert_eq!(active.index.file_name, "t/0/1.index");
    assert_eq!(active.data, b"x".to_vec());
    assert_eq!(active.read_content_at_offset(0), Ok(Some(b"x".to_vec())));
}

#[test]
fn segments_are_numbered_in_order() {
    let mut partition = Partition::new("t".to_owned(), 0);
    for _ in 0..5 {
        partition.write_to_segment(&[0u8; 600], None).unwrap();
    }
    assert_eq!(partition.old_segments.len(), 4);
    for (k, segment) in partition.old_segments.iter().enumerate() {
        assert_eq!(segment.segment_id, k as u64);
        assert_eq!(segment.bytes_consumed, 600);
    }
    assert_eq!(partition.active_segment.as_ref().unwrap().segment_id, 4);
}

#[test]
fn an_oversized_record_gets_a_segment_of_its_own() {
    let mut partition = Partition::new("t".to_owned(), 0);
    partition.write_to_segment(b"a", None).unwrap();
    partition.write_to_segment(&[3u8; 2000], None).unwrap();
    assert_eq!(partition.old_segments.len(), 1);
    let active = partition.active_segment.as_ref().unwrap();
    assert_eq!(active.segment_id, 1);
    assert_eq!(active.bytes_consumed, 2000);
}

#[test]
fn first_write_recovers_what_is_on_disk() {
    let mut index = IndexEntry::new(0, 0, 3, 0).to_bytes();
    index.extend_from_slice(&IndexEntry::new(1, 3, 2, 0).to_bytes());
    let files = SegmentFiles { data: b"abcde".to_vec(), index };
    let mut partition = Partition::new("t".to_owned(), 0);
    let entry = partition.write_to_segment(b"fg", Some(files)).unwrap();
    assert_eq!(entry, IndexEntry::new(2, 5, 2, 0));
    let segment = partition.active_segment.as_ref().unwrap();
    assert_eq!(segment.data, b"abcdefg".to_vec());
    assert_eq!(segment.index.entries.len(), 3);
    assert_eq!(segment.index.file.len(), 96);
    assert_eq!(segment.read_content_at_offset(1), Ok(Some(b"de".to_vec())));
    assert_eq!(segment.read_content_at_offset(2), Ok(Some(b"fg".to_vec())));
}

#[test]
fn on_disk_is_not_looked_at_when_no_segment_is_opened() {
    let mut partition = Partition::new("t".to_owned(), 0);
    partition.write_to_segment(b"abc", None).unwrap();
    let corrupt = SegmentFiles { data: vec![9; 9], index: vec![0u8; 7] };
    let entry = partition.write_to_segment(b"de", Some(corrupt)).unwrap();
    assert_eq!(entry, IndexEntry::new(1, 3, 2, 0));
    assert_eq!(partition.active_segment.as_ref().unwrap().data, b"abcde".to_vec());
}

#[test]
fn a_corrupt_index_on_disk_fails_the_write_and_changes_nothing() {
    let mut partition = Partition::new("t".to_owned(), 0);
    let corrupt = SegmentFiles { data: Vec::new(), index: vec![0u8; 33] };
    let written = partition.write_to_segment(b"abc", Some(corrupt));
    assert!(matches!(written, Err(SegmentError::CorruptIndex)));
    assert!(partition.active_segment.is_none());
    assert!(partition.old_segments.is_empty());

    partition.write_to_segment(&[0u8; 1024], None).unwrap();
    let corrupt = SegmentFiles { data: Vec::new(), index: vec![0u8; 1] };
    let written = partition.write_to_segment(b"abc", Some(corrupt));
    assert!(matches!(written, Err(SegmentError::CorruptIndex)));
    assert!(partition.old_segments.is_empty());
    let active = partition.active_segment.as_ref().unwrap();
    assert_eq!(active.segment_id, 0);
    assert_eq!(active.bytes_consumed, 1024);
    let created = partition.create_segment_and_assign(Some(SegmentFiles {
        data: Vec::new(),
        index: vec![0u8; 31],
    }));
    assert!(matches!(created, Err(SegmentError::CorruptIndex)));
    assert_eq!(partition.active_segment.as_ref().unwrap().segment_id, 0);
}

#[test]
fn create_segment_and_assign_rotates() {
    let mut partition = Partition::new("t".to_owned(), 2);
    partition.create_segment_and_assign(None).unwrap();
    partition.write_to_segment(b"abc", None).unwrap();
    partition.create_segment_and_assign(None).unwrap();
    assert_eq!(partition.old_segments.len(), 1);
    assert_eq!(partition.old_segments[0].data, b"abc".to_vec());
    let active = partition.active_segment.as_ref().unwrap();
    assert_eq!(active.segment_id, 1);
    assert_eq!(active.partition_id, 2);
    assert!(active.data.is_empty());
}

#[test]
fn topic_is_rebuilt_from_its_directory() {
    let topic = Topic::new(
        "root".to_owned(),
        "orders".to_owned(),
        Some(vec![dir("0"), dir("1"), dir("2")]),
    )
    .unwrap();
    assert_eq!(topic.name, "orders");
    assert_eq!(topic.topic_ws, "root/orders");
    assert_eq!(ids(&topic), vec![0, 1, 2]);
    assert_eq!(topic.partitions[2].partition_ws, "root/orders/2");
    for p in &topic.partitions {
        assert!(p.active_segment.is_none());
        assert!(p.old_segments.is_empty());
    }
}

#[test]
fn rebuilt_topic_has_partition_zero_first() {
    let topic =
        Topic::new("r".to_owned(), "t".to_owned(), Some(vec![dir("7"), dir("0"), dir("3")])).unwrap();
    assert_eq!(ids(&topic), vec![0, 7, 3]);
    let topic = Topic::new("r".to_owned(), "t".to_owned(), Some(Vec::new())).unwrap();
    assert_eq!(ids(&topic), vec![0]);
    let topic = Topic::new("r".to_owned(), "t".to_owned(), Some(vec![dir("5")])).unwrap();
    assert_eq!(ids(&topic), vec![0, 5]);
    assert_eq!(topic.get_default_partition().partition_id, 0);
    let topic =
        Topic::new("r".to_owned(), "t".to_owned(), Some(vec![dir("00"), dir("+0"), dir("01")]))
            .unwrap();
    assert_eq!(ids(&topic), vec![0, 1]);
}

#[test]
fn topic_directory_with_a_stray_entry_is_invalid() {
    for entries in [
        vec![dir("0"), file("1")],
        vec![file("0")],
        vec![dir("0"), dir("tmp")],
        vec![dir("")],
        vec![dir("0"), dir("1"), dir("-2")],
        vec![dir("0"), file("notes.txt")],
    ] {
        let opened = Topic::new("r".to_owned(), "t".to_owned(), Some(entries));
        assert!(matches!(opened, Err(SegmentError::InvalidPath)));
    }
}

#[test]
fn create_from_existing_takes_the_path_as_it_is() {
    let topic =
        Topic::create_from_existing("some/where".to_owned(), "t".to_owned(), vec![dir("4")]).unwrap();
    assert_eq!(topic.topic_ws, "some/where");
    assert_eq!(topic.name, "t");
    assert_eq!(ids(&topic), vec![0, 4]);
    assert_eq!(topic.partitions[1].partition_ws, "some/where/4");
}

#[test]
fn topic_writes_go_to_the_default_partition_only() {
    let mut topic =
        Topic::new("r".to_owned(), "t".to_owned(), Some(vec![dir("1"), dir("0")])).unwrap();
    topic.write(b"abc", None).unwrap();
    topic.write(b"de", None).unwrap();
    assert_eq!(ids(&topic), vec![0, 1]);
    assert!(topic.partitions[1].active_segment.is_none());
    let segment = topic.partitions[0].active_segment.as_ref().unwrap();
    assert_eq!(segment.file_name, "r/t/0/0.log");
    assert_eq!(segment.records, 2);
    assert_eq!(segment.read_content_at_offset(1), Ok(Some(b"de".to_vec())));
}

#[test]
fn topic_write_rolls_over() {
    let mut topic = Topic::new("r".to_owned(), "t".to_owned(), None).unwrap();
    for _ in 0..3 {
        topic.write(&[5u8; 1024], None).unwrap();
    }
    let partition = topic.get_default_partition();
    assert_eq!(partition.old_segments.len(), 2);
    assert_eq!(partition.active_segment.as_ref().unwrap().segment_id, 2);
}

#[test]
fn partitions_and_topics_of_the_engine_are_well_formed() {
    let mut topic =
        Topic::new("r".to_owned(), "t".to_owned(), Some(vec![dir("1"), dir("0")])).unwrap();
    assert!(topic.is_wf());
    for _ in 0..4 {
        topic.write(&[1u8; 700], None).unwrap();
        assert!(topic.is_wf());
    }
    assert!(topic.partitions[0].is_wf());
    assert!(Partition::new("".to_owned(), 0).is_wf());
}

#[test]
fn a_topic_changed_by_hand_is_not_well_formed() {
    let mut topic = Topic::new("r".to_owned(), "t".to_owned(), None).unwrap();
    topic.write(b"abc", None).unwrap();
    topic.partitions[0].partition_ws = "elsewhere".to_owned();
    assert!(!topic.is_wf());
    assert!(!topic.partitions[0].is_wf());
    topic.partitions[0].partition_ws = "r/t/0".to_owned();
    assert!(topic.is_wf());
    topic.partitions[0].active_segment.as_mut().unwrap().segment_id = 1;
    assert!(!topic.is_wf());
    topic.partitions[0].active_segment.as_mut().unwrap().segment_id = 0;
    topic.partitions[0].partition_id = 1;
    assert!(!topic.is_wf());
    topic.partitions.clear();
    assert!(!topic.is_wf());
    let mut partition = Partition::new("r".to_owned(), 0);
    partition.partition_ws = "r/0/".to_owned();
    assert!(!partition.is_wf());
}

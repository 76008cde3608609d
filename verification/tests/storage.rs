use std::collections::BTreeMap;

use vortex::error::VortexError;
use vortex::hash::{compute_genesis_hash, HashDigest};
use vortex::partition::{partition_dir_name, segment_file_name, AppendStep, PartitionLog};
use vortex::record::Record;
use vortex::segment::{
    FileWrite, IndexEntry, Segment, SegmentFile, SegmentOpen, HEADER_INDEX_REGION_SIZE, SEGMENT_MAGIC,
};

/// Writes `writes` into an in-memory file, growing it with zeros as needed.
fn apply(file: &mut Vec<u8>, writes: &[FileWrite]) {
    for w in writes {
        let pos = w.position as usize;
        let end = pos + w.bytes.len();
        if file.len() < end {
            file.resize(end, 0);
        }
        file[pos..end].copy_from_slice(&w.bytes);
    }
}

/// Opens the segment held by an in-memory file, creating or truncating it.
fn open_segment(file: &mut Vec<u8>, base: u64, genesis: HashDigest) -> Segment {
    match Segment::open_or_create(file, base, genesis).expect("decodable").expect("Segment opened") {
        SegmentOpen::Created { segment, header } => {
            file.resize(HEADER_INDEX_REGION_SIZE as usize, 0);
            file[..header.len()].copy_from_slice(&header);
            segment
        }
        SegmentOpen::Recovered { segment, truncate_to } => {
            if let Some(t) = truncate_to {
                file.truncate(t as usize);
            }
            segment
        }
    }
}

fn read_segment(seg: &Segment, file: &[u8], start: u64, max: usize) -> Result<Vec<Record>, VortexError> {
    let tail: &[u8] = match seg.read_start(start) {
        Some(p) => &file[p as usize..],
        None => &[],
    };
    seg.read(tail, start, max).expect("decodable")
}

fn append(seg: &mut Segment, file: &mut Vec<u8>, key: Option<Vec<u8>>, value: Vec<u8>) -> Record {
    assert!(seg.has_room_for(&key, &value));
    let (rec, writes) = seg.append(key, value);
    apply(file, &writes);
    rec
}

/// A partition directory held in memory: segment files by base offset.
struct Dir {
    files: BTreeMap<u64, Vec<u8>>,
}

/// Does to an in-memory file what opening its segment called for.
fn apply_action(file: &mut Vec<u8>, action: SegmentFile) {
    match action {
        SegmentFile::Initialize(header) => {
            file.resize(HEADER_INDEX_REGION_SIZE as usize, 0);
            file[..header.len()].copy_from_slice(&header);
        }
        SegmentFile::Truncate(len) => file.truncate(len as usize),
        SegmentFile::Keep => {}
    }
}

fn open_partition(dir: &mut Dir, topic: &str, pid: u32, max: u64) -> PartitionLog {
    let names: Vec<Vec<u8>> = dir.files.keys().map(|b| segment_file_name(*b).into_bytes()).collect();
    let bases = PartitionLog::segment_bases(&names);
    let contents: Vec<Vec<u8>> = bases.iter().map(|b| dir.files.get(b).cloned().unwrap_or_default()).collect();
    let (log, actions) = PartitionLog::open_or_create(topic, pid, max, &bases, &contents)
        .expect("decodable")
        .expect("Partition opened");
    for (base, action) in bases.iter().zip(actions) {
        apply_action(dir.files.entry(*base).or_default(), action);
    }
    log
}

fn partition_append(dir: &mut Dir, log: &mut PartitionLog, key: Option<Vec<u8>>, value: Vec<u8>) -> Record {
    let (roll_base, successor) = match log.append_step() {
        AppendStep::Roll { base_offset, .. } => {
            (Some(base_offset), dir.files.get(&base_offset).cloned().unwrap_or_default())
        }
        AppendStep::Append => (None, Vec::new()),
    };
    assert!(log.has_room(&key, &value, &successor));
    let (rec, writes, opened) = log.append(key, value, &successor).expect("decodable").expect("Append succeeded");
    if let Some(action) = opened {
        apply_action(dir.files.entry(roll_base.unwrap()).or_default(), action);
    }
    let base = log.active_segment().base_offset;
    apply(dir.files.get_mut(&base).unwrap(), &writes);
    rec
}

fn partition_read(dir: &Dir, log: &PartitionLog, start: u64, max: usize) -> Vec<Record> {
    let mut r = log.read(start, max);
    while let Some((idx, offset, budget)) = r.next_segment(log.segments.len()) {
        let seg = &log.segments[idx];
        let batch = read_segment(seg, &dir.files[&seg.base_offset], offset, budget).unwrap();
        assert!(r.absorb(batch));
    }
    r.into_records()
}

#[test]
fn test_segment_create_append_read_recover() {
    let mut file: Vec<u8> = Vec::new();
    let genesis = compute_genesis_hash("telemetry", 0);

    let mut seg = open_segment(&mut file, 0, genesis);
    assert_eq!(seg.next_offset, 0);

    for i in 0..10 {
        let val = format!("payload-item-{}", i).into_bytes();
        let rec = append(&mut seg, &mut file, None, val);
        assert_eq!(rec.offset, i as u64);
    }

    assert_eq!(seg.next_offset, 10);

    let read_back = read_segment(&seg, &file, 5, 1024 * 1024).expect("Read succeeded");
    assert_eq!(read_back.len(), 5);
    assert_eq!(read_back[0].offset, 5);
    assert_eq!(read_back[4].offset, 9);

    assert_eq!(read_back[1].prev_hash, read_back[0].record_hash);

    drop(seg);

    let recovered = open_segment(&mut file, 0, genesis);
    assert_eq!(recovered.next_offset, 10);
    assert_eq!(recovered.base_offset, 0);
}

#[test]
fn test_partition_append_segment_rolling_and_cross_segment_reads() {
    let mut dir = Dir { files: BTreeMap::new() };

    let mut log = open_partition(&mut dir, "orders", 0, 1000);

    assert_eq!(log.segments.len(), 1);

    for i in 0..50 {
        let key = Some(format!("k-{}", i).into_bytes());
        let val = format!("val-{:010}", i).into_bytes();
        partition_append(&mut dir, &mut log, key, val);
    }

    assert!(
        log.segments.len() > 1,
        "Partition should have rolled into multiple segments, had {}",
        log.segments.len()
    );

    let all_records = partition_read(&dir, &log, 0, 1024 * 1024);
    assert_eq!(all_records.len(), 50);

    for i in 1..50 {
        assert_eq!(
            all_records[i].prev_hash, all_records[i - 1].record_hash,
            "Hash chain must be unbroken across segment rolling boundary at offset {}",
            i
        );
    }
}

#[test]
fn new_segment_header_layout() {
    let mut file: Vec<u8> = Vec::new();
    let genesis = [3u8; 32];
    let seg = open_segment(&mut file, 500, genesis);
    assert_eq!(file.len(), 65_536);
    assert_eq!(&file[0..4], &SEGMENT_MAGIC.to_be_bytes());
    assert_eq!(file[4], 1);
    assert_eq!(&file[5..7], &[0, 0]);
    assert_eq!(&file[7..15], &500u64.to_be_bytes());
    assert_eq!(&file[15..47], &genesis);
    assert!(file[47..].iter().all(|b| *b == 0));
    assert_eq!(seg.base_offset, 500);
    assert_eq!(seg.next_offset, 500);
    assert_eq!(seg.last_record_hash, genesis);
    assert_eq!(seg.current_data_position, HEADER_INDEX_REGION_SIZE);
    assert_eq!(seg.size(), HEADER_INDEX_REGION_SIZE);
    assert!(seg.index_entries.is_empty());
}

#[test]
fn first_append_writes_a_checkpoint() {
    let mut file: Vec<u8> = Vec::new();
    let mut seg = open_segment(&mut file, 100, [0u8; 32]);
    let (rec, writes) = seg.append_at(None, b"abc".to_vec(), 77);
    assert_eq!(writes.len(), 3);
    assert_eq!(writes[0].position, 256);
    let mut entry = 0u32.to_be_bytes().to_vec();
    entry.extend_from_slice(&65_536u64.to_be_bytes());
    entry.extend_from_slice(&0u32.to_be_bytes());
    assert_eq!(writes[0].bytes, entry);
    assert_eq!(writes[1].position, 252);
    assert_eq!(writes[1].bytes, 1u32.to_be_bytes().to_vec());
    assert_eq!(writes[2].position, 65_536);
    assert_eq!(writes[2].bytes, rec.encode());
    assert_eq!(rec.offset, 100);
    assert_eq!(rec.timestamp, 77);
    assert_eq!(
        seg.index_entries,
        vec![IndexEntry { relative_offset: 0, physical_position: 65_536, timestamp_delta: 0 }]
    );
    assert_eq!(seg.current_data_position, 65_536 + 99);
    assert_eq!(seg.bytes_since_last_index, 99);

    let (_, writes) = seg.append_at(None, b"d".to_vec(), 78);
    assert_eq!(writes.len(), 1);
    assert_eq!(writes[0].position, 65_536 + 99);
}

#[test]
fn appended_segment_recovers_to_same_state() {
    let mut file: Vec<u8> = Vec::new();
    let genesis = compute_genesis_hash("t", 0);
    let mut seg = open_segment(&mut file, 0, genesis);
    let mut appended = Vec::new();
    for i in 0..5u8 {
        appended.push(append(&mut seg, &mut file, Some(vec![i]), vec![i; i as usize]));
    }
    let recovered = open_segment(&mut file, 0, [9u8; 32]);
    assert_eq!(recovered.index_entries, seg.index_entries);
    assert_eq!(recovered.index_entries.len(), 1);
    assert_eq!(read_segment(&recovered, &file, 0, 1 << 20).unwrap(), appended);
    assert_eq!(read_segment(&seg, &file, 2, 1 << 20).unwrap(), appended[2..].to_vec());
    assert_eq!(recovered.base_offset, seg.base_offset);
    assert_eq!(recovered.next_offset, seg.next_offset);
    assert_eq!(recovered.genesis_hash, seg.genesis_hash);
    assert_eq!(recovered.last_record_hash, seg.last_record_hash);
    assert_eq!(recovered.current_data_position, seg.current_data_position);
    assert_eq!(file.len() as u64, seg.current_data_position);
}

#[test]
fn torn_tail_is_truncated_on_recovery() {
    let mut file: Vec<u8> = Vec::new();
    let genesis = compute_genesis_hash("t", 0);
    let mut seg = open_segment(&mut file, 0, genesis);
    append(&mut seg, &mut file, None, b"one".to_vec());
    let end_of_first = file.len();
    let second = append(&mut seg, &mut file, None, b"two".to_vec());
    file.truncate(file.len() - 2);
    match Segment::open_or_create(&file, 0, genesis).unwrap().unwrap() {
        SegmentOpen::Recovered { segment, truncate_to } => {
            assert_eq!(truncate_to, Some(end_of_first as u64));
            assert_eq!(segment.next_offset, 1);
            assert_eq!(segment.last_record_hash, second.prev_hash);
        }
        SegmentOpen::Created { .. } => panic!("expected recovery"),
    }

    // A corrupted record is cut off the same way.
    let mut file2: Vec<u8> = Vec::new();
    let mut seg2 = open_segment(&mut file2, 0, genesis);
    append(&mut seg2, &mut file2, None, b"one".to_vec());
    append(&mut seg2, &mut file2, None, b"two".to_vec());
    let n = file2.len();
    file2[n - 1] ^= 0xFF;
    let recovered = open_segment(&mut file2, 0, genesis);
    assert_eq!(recovered.next_offset, 1);
    assert_eq!(file2.len(), end_of_first);
}

#[test]
fn recovery_rejects_bad_files() {
    let short = vec![1u8; 100];
    assert!(matches!(
        Segment::open_or_create(&short, 0, [0u8; 32]),
        Some(Err(VortexError::Io(ref m))) if m == "failed to fill whole buffer"
    ));
    let mut bad = vec![0u8; 300];
    bad[0] = 0x12;
    assert!(matches!(
        Segment::open_or_create(&bad, 0, [0u8; 32]),
        Some(Err(VortexError::InvalidMagic { expected: SEGMENT_MAGIC, actual: 0x12000000 }))
    ));
}

#[test]
fn read_respects_bounds_and_budget() {
    let mut file: Vec<u8> = Vec::new();
    let mut seg = open_segment(&mut file, 10, [0u8; 32]);
    for i in 0..4u8 {
        append(&mut seg, &mut file, None, vec![i; 4]);
    }
    assert!(read_segment(&seg, &file, 9, 1000).unwrap().is_empty());
    assert!(read_segment(&seg, &file, 14, 1000).unwrap().is_empty());
    assert_eq!(seg.read_start(9), None);
    assert_eq!(seg.read_start(12), Some(65_536));
    // Each record takes 100 bytes: a budget of 150 stops after the second.
    let two = read_segment(&seg, &file, 11, 150).unwrap();
    assert_eq!(two.iter().map(|r| r.offset).collect::<Vec<_>>(), vec![11, 12]);
    let all = read_segment(&seg, &file, 10, 1).unwrap();
    assert_eq!(all.len(), 1);
}

#[test]
fn find_file_position_uses_last_checkpoint() {
    let mut seg = open_segment(&mut Vec::new(), 100, [0u8; 32]);
    assert_eq!(seg.find_file_position(150), HEADER_INDEX_REGION_SIZE);
    seg.index_entries = vec![
        IndexEntry { relative_offset: 0, physical_position: 65_536, timestamp_delta: 0 },
        IndexEntry { relative_offset: 10, physical_position: 70_000, timestamp_delta: 0 },
        IndexEntry { relative_offset: 20, physical_position: 80_000, timestamp_delta: 0 },
    ];
    assert_eq!(seg.find_file_position(100), 65_536);
    assert_eq!(seg.find_file_position(109), 65_536);
    assert_eq!(seg.find_file_position(110), 70_000);
    assert_eq!(seg.find_file_position(119), 70_000);
    assert_eq!(seg.find_file_position(125), 80_000);
}

#[test]
fn room_for_records() {
    let seg = open_segment(&mut Vec::new(), 0, [0u8; 32]);
    assert!(seg.has_room_for(&None, &vec![0u8; 10]));
    assert!(seg.has_room_for(&Some(vec![1, 2]), &Vec::new()));
    let mut full = seg.clone();
    full.next_offset = u64::MAX;
    assert!(!full.has_room_for(&None, &Vec::new()));
    let mut far = seg.clone();
    far.current_data_position = u64::MAX - 50;
    assert!(!far.has_room_for(&None, &Vec::new()));
}

#[test]
fn names_of_files() {
    assert_eq!(segment_file_name(0), "00000000000000000000.vtx");
    assert_eq!(segment_file_name(1234), "00000000000000001234.vtx");
    assert_eq!(partition_dir_name(7), "partition-7");
}

#[test]
fn partition_reopens_segments_in_order() {
    let mut dir = Dir { files: BTreeMap::new() };
    let mut log = open_partition(&mut dir, "orders", 2, 65_536 + 300);
    // Each record takes 116 bytes: three fit before a segment reaches the limit.
    for i in 0..12u8 {
        partition_append(&mut dir, &mut log, None, vec![i; 20]);
    }
    let n = log.segments.len();
    assert_eq!(n, 4);
    let tail_hash = log.active_segment().last_record_hash;

    let reopened = open_partition(&mut dir, "orders", 2, 65_536 + 300);
    assert_eq!(reopened.segments.len(), n);
    assert_eq!(dir.files.len(), n);
    assert_eq!(reopened.next_offset(), 12);
    assert_eq!(reopened.active_segment().last_record_hash, tail_hash);
    for i in 0..n {
        assert_eq!(reopened.segments[i].index_entries, log.segments[i].index_entries);
        assert_eq!(reopened.segments[i].current_data_position, log.segments[i].current_data_position);
    }
    for i in 1..n {
        assert_eq!(reopened.segments[i].genesis_hash, reopened.segments[i - 1].last_record_hash);
        assert_eq!(reopened.segments[i].base_offset, reopened.segments[i - 1].next_offset);
    }
    assert_eq!(reopened.segments[0].genesis_hash, compute_genesis_hash("orders", 2));
}

#[test]
fn partition_open_lists_segment_files() {
    let names: Vec<Vec<u8>> = vec![
        b"00000000000000000020.vtx".to_vec(),
        b"notes.txt".to_vec(),
        b"00000000000000000003.vtx".to_vec(),
        b"junk.vtx".to_vec(),
        b".vtx".to_vec(),
    ];
    let bases = PartitionLog::segment_bases(&names);
    assert_eq!(bases, vec![3, 20, 0]);

    let fresh = PartitionLog::segment_bases(&Vec::new());
    assert_eq!(fresh, vec![0]);
}

#[test]
fn partition_read_from_middle_and_outside() {
    let mut dir = Dir { files: BTreeMap::new() };
    let mut log = open_partition(&mut dir, "p", 0, 65_536 + 250);
    for i in 0..20u8 {
        partition_append(&mut dir, &mut log, None, vec![i; 10]);
    }
    assert_eq!(log.segments.len(), 7);
    let from_7 = partition_read(&dir, &log, 7, 1 << 20);
    assert_eq!(from_7.len(), 13);
    assert_eq!(from_7[0].offset, 7);
    assert!(partition_read(&dir, &log, 20, 1 << 20).is_empty());
    // Each record counts its value and 96 bytes: 106 bytes; a budget of 250
    // takes three records.
    let limited = partition_read(&dir, &log, 3, 250);
    assert_eq!(limited.iter().map(|r| r.offset).collect::<Vec<_>>(), vec![3, 4, 5]);
}

#[test]
fn active_segment_mut_edits_the_last_segment() {
    let mut dir = Dir { files: BTreeMap::new() };
    let mut log = open_partition(&mut dir, "m", 0, 1 << 20);
    partition_append(&mut dir, &mut log, None, b"x".to_vec());
    let before = log.active_segment().next_offset;
    {
        let active = log.active_segment_mut();
        assert_eq!(active.next_offset, before);
        active.bytes_since_last_index = 7;
    }
    assert_eq!(log.active_segment().bytes_since_last_index, 7);
    assert_eq!(log.next_offset(), 1);
}

#[test]
fn fresh_partition_opens_its_first_segment() {
    let mut dir = Dir { files: BTreeMap::new() };
    let log = open_partition(&mut dir, "orders", 0, 1000);
    assert_eq!(log.segments.len(), 1);
    assert_eq!(log.segments[0].base_offset, 0);
    assert_eq!(log.next_offset(), 0);
    assert_eq!(log.active_segment().last_record_hash, compute_genesis_hash("orders", 0));
    assert_eq!(log.topic, "orders");
    assert_eq!(log.max_segment_bytes, 1000);
    assert_eq!(dir.files[&0].len(), 65_536);
}

#[test]
fn append_rolls_when_the_segment_is_full() {
    let mut dir = Dir { files: BTreeMap::new() };
    let mut log = open_partition(&mut dir, "r", 0, 65_536 + 100);
    assert!(matches!(log.append_step(), AppendStep::Append));
    let first = partition_append(&mut dir, &mut log, None, vec![1; 10]);
    assert_eq!(log.segments.len(), 1);
    match log.append_step() {
        AppendStep::Roll { base_offset, genesis_hash } => {
            assert_eq!(base_offset, 1);
            assert_eq!(genesis_hash, first.record_hash);
        }
        AppendStep::Append => panic!("expected a roll"),
    }
    let second = partition_append(&mut dir, &mut log, None, vec![2; 10]);
    assert_eq!(log.segments.len(), 2);
    assert_eq!(log.active_segment().base_offset, 1);
    assert_eq!(second.offset, 1);
    assert_eq!(second.prev_hash, first.record_hash);
    assert_eq!(log.segments[1].genesis_hash, first.record_hash);
}

#[test]
fn roll_reports_a_bad_successor_file() {
    let mut dir = Dir { files: BTreeMap::new() };
    let mut log = open_partition(&mut dir, "r", 0, 10);
    let bad = vec![0u8; 300];
    assert_eq!(
        log.append(None, vec![1], &bad).map(|r| r.map(|_| ())),
        Some(Err(VortexError::InvalidMagic { expected: SEGMENT_MAGIC, actual: 0 }))
    );
    assert_eq!(log.segments.len(), 1);
    assert_eq!(log.roll_segment(&[1u8; 10]).map(|r| r.is_err()), Some(true));
    assert_eq!(log.segments.len(), 1);
    assert!(matches!(log.roll_segment(&[]), Some(Ok(SegmentFile::Initialize(_)))));
    assert_eq!(log.segments.len(), 2);
}

#[test]
fn partition_open_reports_bad_files() {
    let bases = vec![0u64];
    let contents = vec![vec![7u8; 10]];
    assert!(matches!(
        PartitionLog::open_or_create("t", 0, 10, &bases, &contents),
        Some(Err(VortexError::Io(_)))
    ));
}

//! Segments: one file per run of a partition's log. The first 64 KB of the
//! file hold a 256-byte header and a sparse index of checkpoints; records
//! follow, each chained by hash to the one before.
//!
//! The segment here is the state the log keeps in memory; what happens to
//! the file is described as bytes to write at given positions, and what is
//! read from the file is handed in as bytes.

use vstd::prelude::*;
use crate::error::VortexError;
use crate::hash::HashDigest;
use crate::record::{
    encoded_records, lemma_encoded_records_concat, lemma_record_roundtrip, record_fits, decode_reports, encoded_record, opt_vec, parse_record, payload_len, record_consumed,
    record_views, Record,
    RecordParse, RecordView,
};
use crate::wire::{
    lemma_be16_roundtrip, lemma_be32_read, lemma_be32_roundtrip, lemma_be64_read,
    lemma_be64_roundtrip, lemma_from_be32_prefix, lemma_from_be64_prefix, be16, be32, be64, from_be32, from_be64, put_slice, put_u16, put_u32, put_u64, put_u8,
    read_u32_at, read_u64_at, ByteReader,
};

verus! {

/// 64 KB pre-allocated header and sparse index region.
pub const HEADER_INDEX_REGION_SIZE: u64 = 65_536;

/// "VTX1"
pub const SEGMENT_MAGIC: u32 = 0x56545831;

pub const SEGMENT_VERSION: u8 = 1;

pub const INDEX_ENTRY_SIZE: usize = 16;

pub const MAX_INDEX_ENTRIES: usize = (65_536 - 256) / 16;

/// Sparse index checkpoint interval in bytes (record one index entry every 64 KB of data).
pub const SPARSE_INDEX_INTERVAL_BYTES: u64 = 64 * 1024;

/// A checkpoint: where in the file the record at a given offset begins.
#[derive(Debug, Clone, Copy, PartialEq, Eq, Structural)]
pub struct IndexEntry {
    pub relative_offset: u32,
    pub physical_position: u64,
    pub timestamp_delta: u32,
}

/// Bytes to write into the segment's file at a position.
#[derive(Debug, Clone)]
pub struct FileWrite {
    pub position: u64,
    pub bytes: Vec<u8>,
}

/// The in-memory state of a segment.
#[derive(Debug, Clone)]
pub struct Segment {
    pub base_offset: u64,
    pub next_offset: u64,
    pub genesis_hash: HashDigest,
    pub last_record_hash: HashDigest,
    pub index_entries: Vec<IndexEntry>,
    pub current_data_position: u64,
    pub bytes_since_last_index: u64,
}

impl View for FileWrite {
    type V = (int, Seq<u8>);

    open spec fn view(&self) -> (int, Seq<u8>) {
        (self.position as int, self.bytes@)
    }
}

/// The views of a sequence of writes.
pub open spec fn write_views(ws: Seq<FileWrite>) -> Seq<(int, Seq<u8>)> {
    ws.map_values(|w: FileWrite| w@)
}

/// The state of a segment as mathematical values.
pub struct SegmentView {
    pub base_offset: u64,
    pub next_offset: u64,
    pub genesis_hash: Seq<u8>,
    pub last_record_hash: Seq<u8>,
    pub index_entries: Seq<IndexEntry>,
    pub current_data_position: u64,
    pub bytes_since_last_index: u64,
}

impl View for Segment {
    type V = SegmentView;

    open spec fn view(&self) -> SegmentView {
        SegmentView {
            base_offset: self.base_offset,
            next_offset: self.next_offset,
            genesis_hash: self.genesis_hash@,
            last_record_hash: self.last_record_hash@,
            index_entries: self.index_entries@,
            current_data_position: self.current_data_position,
            bytes_since_last_index: self.bytes_since_last_index,
        }
    }
}

// --- The file ---

/// The 256-byte header of a new segment: magic, version, flags (zero), base
/// offset, genesis hash, creation time (zero), a zero word, then zeros up to
/// the index count (zero) in the last four bytes.
pub open spec fn segment_header(base_offset: u64, genesis_hash: Seq<u8>) -> Seq<u8> {
    be32(SEGMENT_MAGIC) + seq![SEGMENT_VERSION] + be16(0) + be64(base_offset) + genesis_hash + be64(0)
        + be32(0) + Seq::new(197, |i: int| 0u8)
}

/// The 16 bytes of an index entry: relative offset, position, timestamp delta.
pub open spec fn index_entry_bytes(e: IndexEntry) -> Seq<u8> {
    be32(e.relative_offset) + be64(e.physical_position) + be32(e.timestamp_delta)
}

/// The index entry stored at position `pos` of a file.
pub open spec fn index_entry_at(file: Seq<u8>, pos: int) -> IndexEntry {
    IndexEntry {
        relative_offset: from_be32(file.subrange(pos, pos + 4)),
        physical_position: from_be64(file.subrange(pos + 4, pos + 12)),
        timestamp_delta: from_be32(file.subrange(pos + 12, pos + 16)),
    }
}

/// The contents of a file after writing `bytes` at `pos`: the file grows to
/// hold them, with zeros in any gap.
#[verifier::opaque]
pub open spec fn write_at(file: Seq<u8>, pos: int, bytes: Seq<u8>) -> Seq<u8> {
    let len = if file.len() >= pos + bytes.len() { file.len() as int } else { pos + bytes.len() };
    Seq::new(
        len as nat,
        |i: int|
            if pos <= i < pos + bytes.len() {
                bytes[i - pos]
            } else if i < file.len() {
                file[i]
            } else {
                0u8
            },
    )
}

/// The contents of a file after the given writes, in order.
pub open spec fn apply_writes(file: Seq<u8>, writes: Seq<(int, Seq<u8>)>) -> Seq<u8>
    decreases writes.len(),
{
    if writes.len() == 0 {
        file
    } else {
        write_at(apply_writes(file, writes.drop_last()), writes.last().0, writes.last().1)
    }
}

/// A new segment file: 64 KB of zeros with the header written at its start.
pub open spec fn fresh_segment_file(base_offset: u64, genesis_hash: Seq<u8>) -> Seq<u8> {
    write_at(Seq::new(65_536, |i: int| 0u8), 0, segment_header(base_offset, genesis_hash))
}


// --- Recovery ---

/// Where scanning the records of a segment file stops.
pub enum ScanEnd {
    /// A record cannot be decoded without running past a field's end.
    Unparseable,
    /// Fewer than 8 bytes remain: the scan ends at `pos`.
    Clean { pos: nat, next_offset: u64, last_hash: Seq<u8> },
    /// An incomplete or corrupt record starts at `pos`: the file is cut there.
    Truncated { pos: nat, next_offset: u64, last_hash: Seq<u8> },
}

/// Scans records from `pos`, after which the next offset is `next` and the
/// last hash `hash`.
pub open spec fn scan_records(file: Seq<u8>, pos: nat, next: u64, hash: Seq<u8>) -> ScanEnd
    decreases file.len() - pos,
{
    let p = pos as int;
    if p + 8 > file.len() {
        ScanEnd::Clean { pos, next_offset: next, last_hash: hash }
    } else {
        let total = from_be32(file.subrange(p, p + 4)) as int;
        if p + 4 + total > file.len() {
            ScanEnd::Truncated { pos, next_offset: next, last_hash: hash }
        } else {
            match parse_record(file.subrange(p, p + 4 + total)) {
                RecordParse::Unparseable => ScanEnd::Unparseable,
                RecordParse::Parsed(r) => if r.offset == u64::MAX {
                    ScanEnd::Unparseable
                } else {
                    scan_records(file, (p + 4 + total) as nat, (r.offset + 1) as u64, r.record_hash)
                },
                _ => ScanEnd::Truncated { pos, next_offset: next, last_hash: hash },
            }
        }
    }
}

/// What opening an existing segment file finds.
pub enum RecoverOutcome {
    Unparseable,
    /// The header or the index runs past the end of the file.
    ShortRead,
    BadMagic(u32),
    /// The segment, and the length the file is to be cut to, if any.
    Recovered(SegmentView, Option<nat>),
}

/// The number of index entries recorded in a header: the count that each
/// checkpoint written updates, in the header's last four bytes.
pub open spec fn header_index_count(file: Seq<u8>) -> int {
    from_be32(file.subrange(252, 256)) as int
}

/// The outcome of opening an existing segment file with contents `file`.
pub open spec fn recover_segment(file: Seq<u8>) -> RecoverOutcome {
    if file.len() < 256 {
        RecoverOutcome::ShortRead
    } else if from_be32(file) != SEGMENT_MAGIC {
        RecoverOutcome::BadMagic(from_be32(file))
    } else {
        let base = from_be64(file.subrange(7, 15));
        let genesis = file.subrange(15, 47);
        let count = header_index_count(file);
        if 256 + 16 * count > file.len() {
            RecoverOutcome::ShortRead
        } else {
            let entries = Seq::new(count as nat, |i: int| index_entry_at(file, 256 + 16 * i));
            let view = |pos: nat, next: u64, hash: Seq<u8>|
                SegmentView {
                    base_offset: base,
                    next_offset: next,
                    genesis_hash: genesis,
                    last_record_hash: hash,
                    index_entries: entries,
                    current_data_position: pos as u64,
                    bytes_since_last_index: 0,
                };
            match scan_records(file, 65_536, base, genesis) {
                ScanEnd::Unparseable => RecoverOutcome::Unparseable,
                ScanEnd::Clean { pos, next_offset, last_hash } => RecoverOutcome::Recovered(
                    view(pos, next_offset, last_hash),
                    None,
                ),
                ScanEnd::Truncated { pos, next_offset, last_hash } => RecoverOutcome::Recovered(
                    view(pos, next_offset, last_hash),
                    Some(pos),
                ),
            }
        }
    }
}

/// What opening a segment file leads to.
pub enum SegmentOpen {
    /// The file was empty: it is to be sized to 64 KB and `header` written at its start.
    Created { segment: Segment, header: Vec<u8> },
    /// The file held a segment: it is to be cut to `truncate_to`, if given.
    Recovered { segment: Segment, truncate_to: Option<u64> },
}

/// What to do to a segment's file once the segment is opened.
pub enum SegmentFile {
    /// Size the empty file to 64 KB and write this header at its start.
    Initialize(Vec<u8>),
    /// Cut the file to this length.
    Truncate(u64),
    /// Leave the file as it is.
    Keep,
}

/// What opening a segment file with contents `contents` finds: a new segment
/// for an empty file, else what recovery finds.
pub open spec fn open_outcome(contents: Seq<u8>, base_offset: u64, genesis_hash: Seq<u8>) -> RecoverOutcome {
    if contents.len() == 0 {
        RecoverOutcome::Recovered(created(base_offset, genesis_hash), None)
    } else {
        recover_segment(contents)
    }
}

/// `a` is what opening a file with contents `contents` does to it: a new
/// header for an empty file, else the cut that recovery calls for, if any.
pub open spec fn file_action_for(a: SegmentFile, contents: Seq<u8>, base_offset: u64, genesis_hash: Seq<u8>) -> bool {
    if contents.len() == 0 {
        a matches SegmentFile::Initialize(h) && h@ == segment_header(base_offset, genesis_hash)
    } else {
        match recover_segment(contents) {
            RecoverOutcome::Recovered(_, Some(p)) => a matches SegmentFile::Truncate(q) && q == p,
            RecoverOutcome::Recovered(_, None) => a is Keep,
            _ => false,
        }
    }
}

/// The error that reports a failed open.
pub open spec fn reports_open_error(o: RecoverOutcome, e: VortexError) -> bool {
    match o {
        RecoverOutcome::ShortRead => e matches VortexError::Io(m) && m@ == short_read_text(),
        RecoverOutcome::BadMagic(m) => e == VortexError::InvalidMagic { expected: SEGMENT_MAGIC, actual: m },
        _ => false,
    }
}

/// The text std gives an I/O error for a read that finds the file too short.
pub open spec fn short_read_text() -> Seq<char> {
    "failed to fill whole buffer"@
}

fn short_read() -> (e: VortexError)
    ensures
        e matches VortexError::Io(m) && m@ == short_read_text(),
{
    VortexError::Io(String::from_str("failed to fill whole buffer"))
}

fn digest_from(data: &[u8], pos: usize) -> (h: HashDigest)
    requires
        pos + 32 <= data@.len(),
    ensures
        h@ == data@.subrange(pos as int, pos + 32),
{
    let mut h: HashDigest = [0u8; 32];
    let n = data.len();
    let mut i: usize = 0;
    while i < 32
        invariant
            i <= 32,
            n == data@.len(),
            pos + 32 <= data@.len(),
            forall|j: int| 0 <= j < i ==> h@[j] == data@[pos + j],
        decreases 32 - i,
    {
        h[i] = data[pos + i];
        i = i + 1;
    }
    assert(h@ =~= data@.subrange(pos as int, pos + 32));
    h
}

/// Scans the records of a file from position 64 KB.
fn scan_data(file: &[u8], base: u64, genesis: HashDigest) -> (r: Option<(usize, u64, HashDigest, bool)>)
    ensures
        match (scan_records(file@, 65_536, base, genesis@), r) {
            (ScanEnd::Unparseable, None) => true,
            (ScanEnd::Clean { pos, next_offset, last_hash }, Some((p, n, h, t))) => p == pos
                && n == next_offset && h@ == last_hash && !t,
            (ScanEnd::Truncated { pos, next_offset, last_hash }, Some((p, n, h, t))) => p == pos
                && n == next_offset && h@ == last_hash && t,
            _ => false,
        },
{
    let n = file.len();
    let mut pos: usize = 65_536;
    let mut next = base;
    let mut hash = genesis;
    loop
        invariant
            n == file@.len(),
            scan_records(file@, 65_536, base, genesis@) == scan_records(file@, pos as nat, next, hash@),
        decreases n - pos,
    {
        if pos > n || n - pos < 8 {
            return Some((pos, next, hash, false));
        }
        let total = read_u32_at(file, pos) as usize;
        if n - pos - 4 < total {
            return Some((pos, next, hash, true));
        }
        let raw = crate::wire::copy_range(file, pos, pos + 4 + total);
        let mut reader = ByteReader::new(raw);
        match Record::try_decode(&mut reader) {
            None => {
                return None;
            },
            Some(Err(_)) => {
                return Some((pos, next, hash, true));
            },
            Some(Ok(rec)) => {
                if rec.offset == u64::MAX {
                    return None;
                }
                next = rec.offset + 1;
                hash = rec.record_hash;
                pos = pos + 4 + total;
            },
        }
    }
}

impl Segment {
    /// Opens the segment held by a file with contents `contents`, or starts a
    /// new one when the file is empty. `None` where a record in the file has
    /// a valid checksum but cannot be decoded without running past the end of
    /// a field, or claims the last possible offset.
    pub fn open_or_create(contents: &[u8], base_offset: u64, genesis_hash: HashDigest) -> (r: Option<
        Result<SegmentOpen, VortexError>,
    >)
        ensures
            contents@.len() == 0 ==> (r matches Some(Ok(SegmentOpen::Created { segment, header })) && segment@
                == created(base_offset, genesis_hash@) && header@ == segment_header(
                base_offset,
                genesis_hash@,
            )),
            contents@.len() > 0 ==> match (recover_segment(contents@), r) {
                (RecoverOutcome::Unparseable, None) => true,
                (RecoverOutcome::ShortRead, Some(Err(VortexError::Io(m)))) => m@ == short_read_text(),
                (RecoverOutcome::BadMagic(m), Some(Err(VortexError::InvalidMagic { expected, actual }))) =>
                    expected == SEGMENT_MAGIC && actual == m,
                (
                    RecoverOutcome::Recovered(v, t),
                    Some(Ok(SegmentOpen::Recovered { segment, truncate_to })),
                ) => segment@ == v && match (t, truncate_to) {
                    (None, None) => true,
                    (Some(p), Some(q)) => p == q,
                    _ => false,
                },
                _ => false,
            },
    {
        if contents.len() == 0 {
            let header = encode_header(base_offset, &genesis_hash);
            let segment = Segment {
                base_offset,
                next_offset: base_offset,
                genesis_hash,
                last_record_hash: genesis_hash,
                index_entries: Vec::new(),
                current_data_position: HEADER_INDEX_REGION_SIZE,
                bytes_since_last_index: 0,
            };
            assert(segment@.index_entries =~= Seq::<IndexEntry>::empty());
            return Some(Ok(SegmentOpen::Created { segment, header }));
        }
        Self::recover_existing(contents)
    }

    /// Opens a segment from its file's contents (see `Segment::open_or_create`),
    /// with what to do to the file.
    pub fn open_segment_file(contents: &[u8], base_offset: u64, genesis_hash: HashDigest) -> (r: Option<
        Result<(Segment, SegmentFile), VortexError>,
    >)
        ensures
            match (open_outcome(contents@, base_offset, genesis_hash@), r) {
                (RecoverOutcome::Unparseable, None) => true,
                (RecoverOutcome::Recovered(v, _), Some(Ok((seg, a)))) => seg@ == v && file_action_for(
                    a,
                    contents@,
                    base_offset,
                    genesis_hash@,
                ),
                (o, Some(Err(e))) => reports_open_error(o, e),
                _ => false,
            },
    {
        match Segment::open_or_create(contents, base_offset, genesis_hash) {
            None => None,
            Some(Err(e)) => Some(Err(e)),
            Some(Ok(SegmentOpen::Created { segment, header })) => Some(Ok((segment, SegmentFile::Initialize(header)))),
            Some(Ok(SegmentOpen::Recovered { segment, truncate_to })) => {
                let a = match truncate_to {
                    Some(p) => SegmentFile::Truncate(p),
                    None => SegmentFile::Keep,
                };
                Some(Ok((segment, a)))
            },
        }
    }

    fn recover_existing(file: &[u8]) -> (r: Option<Result<SegmentOpen, VortexError>>)
        ensures
            match (recover_segment(file@), r) {
                (RecoverOutcome::Unparseable, None) => true,
                (RecoverOutcome::ShortRead, Some(Err(VortexError::Io(m)))) => m@ == short_read_text(),
                (RecoverOutcome::BadMagic(m), Some(Err(VortexError::InvalidMagic { expected, actual }))) =>
                    expected == SEGMENT_MAGIC && actual == m,
                (
                    RecoverOutcome::Recovered(v, t),
                    Some(Ok(SegmentOpen::Recovered { segment, truncate_to })),
                ) => segment@ == v && match (t, truncate_to) {
                    (None, None) => true,
                    (Some(p), Some(q)) => p == q,
                    _ => false,
                },
                _ => false,
            },
    {
        let n = file.len();
        if n < 256 {
            return Some(Err(short_read()));
        }
        let magic = read_u32_at(file, 0);
        proof {
            crate::wire::lemma_from_be32_at(file@, 0);
            assert(file@.skip(0) =~= file@);
        }
        if magic != SEGMENT_MAGIC {
            return Some(Err(VortexError::InvalidMagic { expected: SEGMENT_MAGIC, actual: magic }));
        }
        let base_offset = read_u64_at(file, 7);
        let genesis_hash = digest_from(file, 15);
        let index_count = read_u32_at(file, 252) as usize;
        if index_count > (n - 256) / 16 {
            return Some(Err(short_read()));
        }
        let mut index_entries: Vec<IndexEntry> = Vec::new();
        let mut i: usize = 0;
        while i < index_count
            invariant
                i <= index_count,
                n == file@.len(),
                256 + 16 * index_count <= n,
                index_entries@ =~= Seq::new(i as nat, |k: int| index_entry_at(file@, 256 + 16 * k)),
            decreases index_count - i,
        {
            let at = 256 + 16 * i;
            let entry = IndexEntry {
                relative_offset: read_u32_at(file, at),
                physical_position: read_u64_at(file, at + 4),
                timestamp_delta: read_u32_at(file, at + 12),
            };
            index_entries.push(entry);
            i = i + 1;
        }
        match scan_data(file, base_offset, genesis_hash) {
            None => None,
            Some((pos, next_offset, last_record_hash, truncated)) => {
                let segment = Segment {
                    base_offset,
                    next_offset,
                    genesis_hash,
                    last_record_hash,
                    index_entries,
                    current_data_position: pos as u64,
                    bytes_since_last_index: 0,
                };
                let truncate_to = if truncated {
                    Some(pos as u64)
                } else {
                    None
                };
                Some(Ok(SegmentOpen::Recovered { segment, truncate_to }))
            },
        }
    }
}

/// The state of a new segment.
pub open spec fn created(base_offset: u64, genesis_hash: Seq<u8>) -> SegmentView {
    SegmentView {
        base_offset,
        next_offset: base_offset,
        genesis_hash,
        last_record_hash: genesis_hash,
        index_entries: seq![],
        current_data_position: 65_536,
        bytes_since_last_index: 0,
    }
}

fn encode_header(base_offset: u64, genesis_hash: &HashDigest) -> (h: Vec<u8>)
    ensures
        h@ == segment_header(base_offset, genesis_hash@),
{
    let mut header: Vec<u8> = Vec::new();
    put_u32(&mut header, SEGMENT_MAGIC);
    put_u8(&mut header, SEGMENT_VERSION);
    put_u16(&mut header, 0);
    put_u64(&mut header, base_offset);
    put_slice(&mut header, genesis_hash.as_slice());
    put_u64(&mut header, 0);
    put_u32(&mut header, 0);
    let ghost prefix = header@;
    assert(prefix.len() == 59);
    while header.len() < 256
        invariant
            59 <= header@.len() <= 256,
            header@ == prefix + Seq::new((header@.len() - 59) as nat, |i: int| 0u8),
        decreases 256 - header@.len(),
    {
        let ghost before = header@;
        put_u8(&mut header, 0);
        assert(header@ =~= prefix + Seq::new((header@.len() - 59) as nat, |i: int| 0u8));
    }
    assert(header@ =~= segment_header(base_offset, genesis_hash@));
    header
}


// --- Appending ---

/// A checkpoint is written before the next record when 64 KB of records
/// have gone by since the last one, or there is none yet, and the index has room.
pub open spec fn wants_index_entry(s: SegmentView) -> bool {
    (s.bytes_since_last_index >= SPARSE_INDEX_INTERVAL_BYTES || s.index_entries.len() == 0)
        && s.index_entries.len() < MAX_INDEX_ENTRIES
}

/// The checkpoint for the next record: its offset relative to the base
/// (truncated to 32 bits) and the position it is written at.
pub open spec fn next_checkpoint(s: SegmentView) -> IndexEntry {
    IndexEntry {
        relative_offset: (s.next_offset - s.base_offset) as u32,
        physical_position: s.current_data_position,
        timestamp_delta: 0,
    }
}

/// The writes that append the record `r`: the checkpoint and the updated
/// index count when one is due, then the record's encoding at the end of
/// the data.
pub open spec fn append_writes(s: SegmentView, r: RecordView) -> Seq<(int, Seq<u8>)> {
    let data = (s.current_data_position as int, encoded_record(r));
    if wants_index_entry(s) {
        let n = s.index_entries.len();
        seq![
            ((256 + 16 * n) as int, index_entry_bytes(next_checkpoint(s))),
            (252int, be32((n + 1) as u32)),
            data,
        ]
    } else {
        seq![data]
    }
}

/// The segment after appending the record `r`.
pub open spec fn appended(s: SegmentView, r: RecordView) -> SegmentView {
    let len = encoded_record(r).len();
    let (entries, since) = if wants_index_entry(s) {
        (s.index_entries.push(next_checkpoint(s)), 0int)
    } else {
        (s.index_entries, s.bytes_since_last_index as int)
    };
    SegmentView {
        next_offset: (s.next_offset + 1) as u64,
        last_record_hash: r.record_hash,
        index_entries: entries,
        current_data_position: (s.current_data_position + len) as u64,
        bytes_since_last_index: (since + len) as u64,
        ..s
    }
}

/// The length of the checksummed payload of a record with this key and value.
pub open spec fn entry_payload_len(key: Option<Seq<u8>>, value: Seq<u8>) -> int {
    88 + match key {
        Some(k) => k.len() as int,
        None => 0int,
    } + value.len()
}

/// Appending a record with this key and value neither overflows a counter
/// nor the record's own length field.
pub open spec fn can_append(s: SegmentView, key: Option<Seq<u8>>, value: Seq<u8>) -> bool {
    let p = entry_payload_len(key, value);
    let since = if wants_index_entry(s) { 0 } else { s.bytes_since_last_index as int };
    &&& p <= usize::MAX
    &&& (p as u32) + 4 <= u32::MAX
    &&& s.next_offset < u64::MAX
    &&& s.current_data_position + p + 8 <= u64::MAX
    &&& since + p + 8 <= u64::MAX
    &&& wants_index_entry(s) ==> s.next_offset >= s.base_offset
}

/// Appending has no size bound of its own: a record fits a segment whenever
/// none of the segment's counters (the next offset, the data position, the
/// bytes since the last checkpoint, the checkpoint's relative offset) and
/// not the record's 32-bit length field would overflow, whatever the size of
/// its key and value.
pub proof fn lemma_room_only_bounds_counters(s: SegmentView, key: Option<Seq<u8>>, value: Seq<u8>)
    requires
        ({
            let key_len: int = match key {
                Some(k) => k.len() as int,
                None => 0int,
            };
            let p = 88 + key_len + value.len();
            &&& p + 4 <= u32::MAX
            &&& s.next_offset < u64::MAX
            &&& s.current_data_position + p + 8 <= u64::MAX
            &&& s.bytes_since_last_index + p + 8 <= u64::MAX
            &&& s.next_offset >= s.base_offset
        }),
    ensures
        can_append(s, key, value),
{
    let p = entry_payload_len(key, value);
    assert(p <= u32::MAX);
    assert((p as u32) as int == p);
}

fn index_entry_encoding(e: &IndexEntry) -> (b: Vec<u8>)
    ensures
        b@ == index_entry_bytes(*e),
{
    let mut buf: Vec<u8> = Vec::new();
    put_u32(&mut buf, e.relative_offset);
    put_u64(&mut buf, e.physical_position);
    put_u32(&mut buf, e.timestamp_delta);
    assert(buf@ =~= index_entry_bytes(*e));
    buf
}

impl Segment {
    /// Appends a new payload to the segment, stamped with the current time.
    /// Returns the committed record and the writes that put it, and a
    /// checkpoint when one is due, into the file.
    pub fn append(&mut self, key: Option<Vec<u8>>, value: Vec<u8>) -> (r: (Record, Vec<FileWrite>))
        requires
            can_append(old(self)@, opt_vec(key), value@),
        ensures
            r.0.offset == old(self).next_offset,
            r.0.prev_hash == old(self).last_record_hash,
            r.0@.key == opt_vec(key),
            r.0.value@ == value@,
            r.0@.is_sealed(),
            write_views(r.1@) == append_writes(old(self)@, r.0@),
            final(self)@ == appended(old(self)@, r.0@),
    {
        let timestamp = crate::clock::unix_millis_now();
        self.append_at(key, value, timestamp)
    }

    /// Appends a new payload with the given timestamp (see `append`).
    pub fn append_at(&mut self, key: Option<Vec<u8>>, value: Vec<u8>, timestamp: u64) -> (r: (
        Record,
        Vec<FileWrite>,
    ))
        requires
            can_append(old(self)@, opt_vec(key), value@),
        ensures
            r.0.offset == old(self).next_offset,
            r.0.timestamp == timestamp,
            r.0.prev_hash == old(self).last_record_hash,
            r.0@.key == opt_vec(key),
            r.0.value@ == value@,
            r.0@.is_sealed(),
            write_views(r.1@) == append_writes(old(self)@, r.0@),
            final(self)@ == appended(old(self)@, r.0@),
    {
        let offset = self.next_offset;
        let record = Record::new_at(self.last_record_hash, offset, timestamp, key, value);
        let encoded = record.encode();
        let encoded_len = encoded.len() as u64;
        let mut writes: Vec<FileWrite> = Vec::new();

        if self.bytes_since_last_index >= SPARSE_INDEX_INTERVAL_BYTES || self.index_entries.len() == 0 {
            if self.index_entries.len() < MAX_INDEX_ENTRIES {
                let entry = IndexEntry {
                    relative_offset: (offset - self.base_offset) as u32,
                    physical_position: self.current_data_position,
                    timestamp_delta: 0,
                };
                let n = self.index_entries.len();
                writes.push(FileWrite { position: 256 + (n * INDEX_ENTRY_SIZE) as u64, bytes: index_entry_encoding(&entry) });
                let mut count: Vec<u8> = Vec::new();
                put_u32(&mut count, n as u32 + 1);
                writes.push(FileWrite { position: 256 - 4, bytes: count });
                self.index_entries.push(entry);
                self.bytes_since_last_index = 0;
            }
        }

        writes.push(FileWrite { position: self.current_data_position, bytes: encoded });
        self.current_data_position = self.current_data_position + encoded_len;
        self.bytes_since_last_index = self.bytes_since_last_index + encoded_len;
        self.last_record_hash = record.record_hash;
        self.next_offset = self.next_offset + 1;
        assert(write_views(writes@) =~= append_writes(old(self)@, record@));
        (record, writes)
    }

    /// Whether a record with this key and value can be appended (see
    /// `can_append`).
    pub fn has_room_for(&self, key: &Option<Vec<u8>>, value: &Vec<u8>) -> (ok: bool)
        ensures
            ok == can_append(self@, opt_vec(*key), value@),
    {
        let key_len: usize = match key {
            Some(k) => k.len(),
            None => 0,
        };
        if key_len > usize::MAX - 88 || value.len() > usize::MAX - 88 - key_len {
            return false;
        }
        let p = 88 + key_len + value.len();
        let wants = (self.bytes_since_last_index >= SPARSE_INDEX_INTERVAL_BYTES
            || self.index_entries.len() == 0) && self.index_entries.len() < MAX_INDEX_ENTRIES;
        let since: u64 = if wants {
            0
        } else {
            self.bytes_since_last_index
        };
        let p64 = p as u64;
        (p as u32) <= u32::MAX - 4 && self.next_offset < u64::MAX && self.current_data_position
            <= u64::MAX - 8 && p64 <= u64::MAX - 8 - self.current_data_position && since <= u64::MAX
            - 8 && p64 <= u64::MAX - 8 - since && (!wants || self.next_offset >= self.base_offset)
    }

    /// Total file size in bytes.
    pub fn size(&self) -> (n: u64)
        ensures
            n == self.current_data_position,
    {
        self.current_data_position
    }
}


// --- Finding where to start reading ---

/// The number of leading entries whose relative offset is at most `target`,
/// as a binary search over `[lo, hi)` finds it.
pub open spec fn upper_bound(entries: Seq<IndexEntry>, target: u32, lo: int, hi: int) -> int
    decreases hi - lo,
{
    if lo >= hi {
        lo
    } else {
        let mid = lo + (hi - lo) / 2;
        if entries[mid].relative_offset <= target {
            upper_bound(entries, target, mid + 1, hi)
        } else {
            upper_bound(entries, target, lo, mid)
        }
    }
}

/// The position reading starts from to find the record at `target_offset`:
/// the position of the last checkpoint the search finds at or before it,
/// or the start of the data region.
pub open spec fn checkpoint_position(s: SegmentView, target_offset: u64) -> u64 {
    if s.index_entries.len() == 0 {
        HEADER_INDEX_REGION_SIZE
    } else {
        let k = upper_bound(
            s.index_entries,
            (target_offset - s.base_offset) as u32,
            0,
            s.index_entries.len() as int,
        );
        if k == 0 {
            HEADER_INDEX_REGION_SIZE
        } else {
            s.index_entries[k - 1].physical_position
        }
    }
}

/// The checkpoints' relative offsets strictly increase.
pub open spec fn index_sorted(entries: Seq<IndexEntry>) -> bool {
    forall|i: int, j: int|
        0 <= i < j < entries.len() ==> entries[i].relative_offset < entries[j].relative_offset
}

/// `p` is the position of the last checkpoint at or before `target`, or the
/// start of the data region when there is none.
pub open spec fn last_checkpoint_at_or_before(entries: Seq<IndexEntry>, target: u32, p: u64) -> bool {
    ||| (p == HEADER_INDEX_REGION_SIZE && forall|i: int|
        0 <= i < entries.len() ==> entries[i].relative_offset > target)
    ||| exists|i: int|
        0 <= i < entries.len() && entries[i].relative_offset <= target && p
            == entries[i].physical_position && forall|j: int|
            i < j < entries.len() ==> entries[j].relative_offset > target
}

/// On sorted checkpoints the search splits them into those at or before
/// the target and those after it.
proof fn lemma_upper_bound_sorted(entries: Seq<IndexEntry>, target: u32, lo: int, hi: int)
    requires
        index_sorted(entries),
        0 <= lo <= hi <= entries.len(),
        forall|i: int| 0 <= i < lo ==> entries[i].relative_offset <= target,
        forall|i: int| hi <= i < entries.len() ==> entries[i].relative_offset > target,
    ensures
        lo <= upper_bound(entries, target, lo, hi) <= hi,
        forall|i: int|
            0 <= i < upper_bound(entries, target, lo, hi) ==> entries[i].relative_offset <= target,
        forall|i: int|
            upper_bound(entries, target, lo, hi) <= i < entries.len() ==> entries[i].relative_offset
                > target,
    decreases hi - lo,
{
    if lo < hi {
        let mid = lo + (hi - lo) / 2;
        if entries[mid].relative_offset <= target {
            lemma_upper_bound_sorted(entries, target, mid + 1, hi);
        } else {
            lemma_upper_bound_sorted(entries, target, lo, mid);
        }
    }
}

impl Segment {
    /// Performs a binary search over the sparse index to locate the closest
    /// physical file offset at or before the record at `target_offset`.
    pub fn find_file_position(&self, target_offset: u64) -> (p: u64)
        requires
            self.index_entries@.len() > 0 ==> target_offset >= self.base_offset,
        ensures
            p == checkpoint_position(self@, target_offset),
            index_sorted(self.index_entries@) && self.index_entries@.len() > 0
                ==> last_checkpoint_at_or_before(
                self.index_entries@,
                (target_offset - self.base_offset) as u32,
                p,
            ),
    {
        if self.index_entries.len() == 0 {
            return HEADER_INDEX_REGION_SIZE;
        }
        let rel_target = (target_offset - self.base_offset) as u32;
        let n = self.index_entries.len();
        let mut lo: usize = 0;
        let mut hi: usize = n;
        while lo < hi
            invariant
                0 <= lo <= hi <= n,
                n == self.index_entries@.len(),
                upper_bound(self.index_entries@, rel_target, 0, n as int) == upper_bound(
                    self.index_entries@,
                    rel_target,
                    lo as int,
                    hi as int,
                ),
            decreases hi - lo,
        {
            let mid = lo + (hi - lo) / 2;
            if self.index_entries[mid].relative_offset <= rel_target {
                lo = mid + 1;
            } else {
                hi = mid;
            }
        }
        proof {
            if index_sorted(self.index_entries@) {
                lemma_upper_bound_sorted(self.index_entries@, rel_target, 0, n as int);
                if lo > 0 {
                    let i = lo - 1;
                    assert(self.index_entries@[i as int].relative_offset <= rel_target);
                }
            }
        }
        if lo == 0 {
            HEADER_INDEX_REGION_SIZE
        } else {
            self.index_entries[lo - 1].physical_position
        }
    }
}


// --- Reading ---

/// Where reading records from a segment ends.
pub enum ReadEnd {
    /// A record cannot be decoded without running past a field's end, or a
    /// byte count overflows.
    Unparseable,
    /// A record's length runs past the end of the file.
    ShortRead,
    /// A record failed to decode this way.
    RecordError(RecordParse),
    /// The records read.
    Done(Seq<RecordView>),
}

/// Reads records from position `i` of `tail`, which lies at position `abs`
/// of the file, while `abs` is before `end` and fewer than `max` bytes of
/// records at or after offset `start` have been taken.
pub open spec fn read_scan(
    tail: Seq<u8>,
    i: nat,
    abs: int,
    end: int,
    start: u64,
    max: nat,
    taken: nat,
    acc: Seq<RecordView>,
) -> ReadEnd
    decreases tail.len() - i,
{
    let ii = i as int;
    if !(abs < end && taken < max) {
        ReadEnd::Done(acc)
    } else if ii + 4 > tail.len() {
        ReadEnd::Done(acc)
    } else {
        let full = 4 + from_be32(tail.subrange(ii, ii + 4)) as int;
        if ii + full > tail.len() {
            ReadEnd::ShortRead
        } else {
            match parse_record(tail.subrange(ii, ii + full)) {
                RecordParse::Unparseable => ReadEnd::Unparseable,
                RecordParse::Parsed(r) => if abs + full > u64::MAX {
                    ReadEnd::Unparseable
                } else if r.offset >= start {
                    if taken + full > usize::MAX {
                        ReadEnd::Unparseable
                    } else {
                        read_scan(tail, (ii + full) as nat, abs + full, end, start, max, (taken + full) as nat, acc.push(r))
                    }
                } else {
                    read_scan(tail, (ii + full) as nat, abs + full, end, start, max, taken, acc)
                },
                other => ReadEnd::RecordError(other),
            }
        }
    }
}

/// What reading from offset `start`, at most `max` bytes of records, gives,
/// where `tail` is the file from the checkpoint position of `start` on.
pub open spec fn segment_read(s: SegmentView, tail: Seq<u8>, start: u64, max: nat) -> ReadEnd {
    if start < s.base_offset || start >= s.next_offset {
        ReadEnd::Done(seq![])
    } else {
        read_scan(
            tail,
            0,
            checkpoint_position(s, start) as int,
            s.current_data_position as int,
            start,
            max,
            0,
            seq![],
        )
    }
}

impl Segment {
    /// Where in the file a read from `start_offset` begins: the checkpoint
    /// position at or before it, or `None` when the offset lies outside the
    /// segment and the read finds nothing.
    pub fn read_start(&self, start_offset: u64) -> (p: Option<u64>)
        ensures
            p == (if start_offset < self.base_offset || start_offset >= self.next_offset {
                None
            } else {
                Some(checkpoint_position(self@, start_offset))
            }),
    {
        if start_offset < self.base_offset || start_offset >= self.next_offset {
            None
        } else {
            Some(self.find_file_position(start_offset))
        }
    }
}

/// The result that reports where reading ends.
pub open spec fn reports_read(end: ReadEnd, r: Option<Result<Vec<Record>, VortexError>>) -> bool {
    match (end, r) {
        (ReadEnd::Unparseable, None) => true,
        (ReadEnd::ShortRead, Some(Err(VortexError::Io(m)))) => m@ == short_read_text(),
        (ReadEnd::RecordError(p), Some(Err(e))) => decode_reports(p, Err(e)),
        (ReadEnd::Done(rs), Some(Ok(v))) => record_views(v@) == rs,
        _ => false,
    }
}

impl Segment {
    /// Reads records starting from `start_offset`, taking records until
    /// `max_bytes` of them have been read or the data ends. `tail` holds the
    /// file from `self.read_start(start_offset)` to its end. `None`
    /// where a record cannot be decoded without running past a field's end,
    /// or a byte count overflows.
    pub fn read(&self, tail: &[u8], start_offset: u64, max_bytes: usize) -> (r: Option<
        Result<Vec<Record>, VortexError>,
    >)
        ensures
            reports_read(segment_read(self@, tail@, start_offset, max_bytes as nat), r),
    {
        if start_offset < self.base_offset || start_offset >= self.next_offset {
            let v: Vec<Record> = Vec::new();
            assert(record_views(v@) =~= seq![]);
            return Some(Ok(v));
        }
        let start_pos = self.find_file_position(start_offset);
        let n = tail.len();
        let mut records: Vec<Record> = Vec::new();
        let mut bytes_read: usize = 0;
        let mut curr_pos: u64 = start_pos;
        let mut i: usize = 0;
        assert(record_views(records@) =~= seq![]);
        loop
            invariant
                i <= n,
                n == tail@.len(),
                segment_read(self@, tail@, start_offset, max_bytes as nat) == read_scan(
                    tail@,
                    i as nat,
                    curr_pos as int,
                    self.current_data_position as int,
                    start_offset,
                    max_bytes as nat,
                    bytes_read as nat,
                    record_views(records@),
                ),
            decreases n - i,
        {
            if !(curr_pos < self.current_data_position && bytes_read < max_bytes) {
                return Some(Ok(records));
            }
            if n - i < 4 {
                return Some(Ok(records));
            }
            let total = read_u32_at(tail, i) as usize;
            if n - i - 4 < total {
                return Some(Err(short_read()));
            }
            let full = 4 + total;
            let raw = crate::wire::copy_range(tail, i, i + full);
            let mut reader = ByteReader::new(raw);
            match Record::try_decode(&mut reader) {
                None => {
                    return None;
                },
                Some(Err(e)) => {
                    return Some(Err(e));
                },
                Some(Ok(rec)) => {
                    if curr_pos > u64::MAX - full as u64 {
                        return None;
                    }
                    if rec.offset >= start_offset {
                        if bytes_read > usize::MAX - full {
                            return None;
                        }
                        bytes_read = bytes_read + full;
                        let ghost views = record_views(records@);
                        records.push(rec);
                        assert(record_views(records@) =~= views.push(records@.last()@));
                    }
                    curr_pos = curr_pos + full as u64;
                    i = i + full;
                },
            }
        }
    }
}


// --- What the file holds ---

/// The file holds the segment: it ends where the segment's data ends, and
/// opening it recovers the segment's offsets, hashes, data position and
/// index (a recovered segment starts a fresh checkpoint interval).
pub open spec fn file_holds(file: Seq<u8>, s: SegmentView) -> bool {
    &&& file.len() == s.current_data_position
    &&& s.current_data_position >= HEADER_INDEX_REGION_SIZE
    &&& s.index_entries.len() <= MAX_INDEX_ENTRIES
    &&& recover_segment(file) == RecoverOutcome::Recovered(
        SegmentView { bytes_since_last_index: 0, ..s },
        None,
    )
}

/// Writing inside `file` leaves every byte outside `[pos, pos + bytes.len())` as it was.
proof fn lemma_write_inside(file: Seq<u8>, pos: int, bytes: Seq<u8>)
    requires
        0 <= pos,
        pos + bytes.len() <= file.len(),
    ensures
        write_at(file, pos, bytes).len() == file.len(),
        forall|i: int|
            0 <= i < file.len() && !(pos <= i < pos + bytes.len()) ==> #[trigger] write_at(
                file,
                pos,
                bytes,
            )[i] == file[i],
        write_at(file, pos, bytes).subrange(pos, pos + bytes.len()) == bytes,
{
    reveal(write_at);
    assert(write_at(file, pos, bytes).subrange(pos, pos + bytes.len()) =~= bytes);
}

/// Writing at the end of `file` appends the bytes.
proof fn lemma_write_at_end(file: Seq<u8>, bytes: Seq<u8>)
    ensures
        write_at(file, file.len() as int, bytes) == file + bytes,
{
    reveal(write_at);
    assert(write_at(file, file.len() as int, bytes) =~= file + bytes);
}

/// A scan that ends cleanly at the end of `f` runs the same way over any
/// longer file that agrees with `f` from `pos` on.
proof fn lemma_scan_prefix(
    f: Seq<u8>,
    g: Seq<u8>,
    pos: nat,
    next: u64,
    hash: Seq<u8>,
    end_next: u64,
    end_hash: Seq<u8>,
)
    requires
        pos <= f.len() <= g.len(),
        forall|i: int| pos <= i < f.len() ==> #[trigger] g[i] == f[i],
        scan_records(f, pos, next, hash) == (ScanEnd::Clean {
            pos: f.len(),
            next_offset: end_next,
            last_hash: end_hash,
        }),
    ensures
        scan_records(g, pos, next, hash) == scan_records(g, f.len(), end_next, end_hash),
    decreases f.len() - pos,
{
    let p = pos as int;
    if p + 8 > f.len() {
    } else {
        assert(g.subrange(p, p + 4) =~= f.subrange(p, p + 4));
        let total = from_be32(f.subrange(p, p + 4)) as int;
        if p + 4 + total <= f.len() {
            assert(g.subrange(p, p + 4 + total) =~= f.subrange(p, p + 4 + total));
            match parse_record(f.subrange(p, p + 4 + total)) {
                RecordParse::Parsed(r) => {
                    if r.offset != u64::MAX {
                        lemma_scan_prefix(
                            f,
                            g,
                            (p + 4 + total) as nat,
                            (r.offset + 1) as u64,
                            r.record_hash,
                            end_next,
                            end_hash,
                        );
                    }
                },
                _ => {},
            }
        }
    }
}

/// Scanning a sealed record at the very end of a file takes it and ends there.
#[verifier::rlimit(100)]
proof fn lemma_scan_last_record(g: Seq<u8>, pos: nat, next: u64, hash: Seq<u8>, r: RecordView)
    requires
        record_fits(r),
        r.is_sealed(),
        r.offset < u64::MAX,
        g.len() == pos + encoded_record(r).len(),
        g.subrange(pos as int, g.len() as int) == encoded_record(r),
    ensures
        scan_records(g, pos, next, hash) == (ScanEnd::Clean {
            pos: g.len(),
            next_offset: (r.offset + 1) as u64,
            last_hash: r.record_hash,
        }),
{
    let e = encoded_record(r);
    let p = pos as int;
    lemma_record_roundtrip(r, seq![]);
    assert(e + seq![] =~= e);
    assert(parse_record(e) == RecordParse::Parsed(r));
    assert(from_be32(e) == e.len() - 4);
    let q = g.subrange(p, p + 4);
    assert(q.subrange(0, 4) =~= e.subrange(0, 4));
    lemma_from_be32_prefix(q, e);
    assert(g.subrange(p, p + e.len()) =~= e);
    assert(scan_records(g, g.len(), (r.offset + 1) as u64, r.record_hash) == (ScanEnd::Clean {
        pos: g.len(),
        next_offset: (r.offset + 1) as u64,
        last_hash: r.record_hash,
    }));
}

/// A scan that starts inside the file stops inside it.
proof fn lemma_scan_stays_inside(file: Seq<u8>, pos: nat, next: u64, hash: Seq<u8>)
    requires
        pos <= file.len(),
    ensures
        match scan_records(file, pos, next, hash) {
            ScanEnd::Clean { pos: p, .. } => pos <= p <= file.len(),
            ScanEnd::Truncated { pos: p, .. } => pos <= p <= file.len(),
            ScanEnd::Unparseable => true,
        },
    decreases file.len() - pos,
{
    let p = pos as int;
    if p + 8 <= file.len() {
        let total = from_be32(file.subrange(p, p + 4)) as int;
        if p + 4 + total <= file.len() {
            match parse_record(file.subrange(p, p + 4 + total)) {
                RecordParse::Parsed(r) => {
                    if r.offset != u64::MAX {
                        lemma_scan_stays_inside(file, (p + 4 + total) as nat, (r.offset + 1) as u64, r.record_hash);
                    }
                },
                _ => {},
            }
        }
    }
}

/// What a file that holds a segment says in its header, index and records.
proof fn lemma_held_file(file: Seq<u8>, s: SegmentView)
    requires
        file_holds(file, s),
    ensures
        file.len() >= 256,
        from_be32(file) == SEGMENT_MAGIC,
        from_be64(file.subrange(7, 15)) == s.base_offset,
        file.subrange(15, 47) == s.genesis_hash,
        header_index_count(file) == s.index_entries.len(),
        forall|i: int|
            0 <= i < s.index_entries.len() ==> index_entry_at(file, 256 + 16 * i)
                == #[trigger] s.index_entries[i],
        scan_records(file, 65_536, s.base_offset, s.genesis_hash) == (ScanEnd::Clean {
            pos: file.len(),
            next_offset: s.next_offset,
            last_hash: s.last_record_hash,
        }),
{
    let base = from_be64(file.subrange(7, 15));
    let genesis = file.subrange(15, 47);
    let count = header_index_count(file);
    lemma_scan_stays_inside(file, 65_536, base, genesis);
    let entries = Seq::new(count as nat, |i: int| index_entry_at(file, 256 + 16 * i));
    assert(entries == s.index_entries);
    assert forall|i: int| 0 <= i < s.index_entries.len() implies index_entry_at(file, 256 + 16 * i)
        == #[trigger] s.index_entries[i] by {
        assert(entries[i] == index_entry_at(file, 256 + 16 * i));
    }
}

/// A new segment file holds the new segment.
pub proof fn lemma_fresh_file_holds(base_offset: u64, genesis_hash: Seq<u8>)
    requires
        genesis_hash.len() == 32,
    ensures
        file_holds(fresh_segment_file(base_offset, genesis_hash), created(base_offset, genesis_hash)),
{
    let h = segment_header(base_offset, genesis_hash);
    let f = fresh_segment_file(base_offset, genesis_hash);
    assert(h.len() == 256);
    reveal(write_at);
    lemma_write_inside(Seq::new(65_536, |i: int| 0u8), 0, h);
    assert(f.subrange(0, 256) == h);
    lemma_be32_roundtrip(SEGMENT_MAGIC);
    assert(f.subrange(0, 4) =~= be32(SEGMENT_MAGIC).subrange(0, 4));
    lemma_from_be32_prefix(f, be32(SEGMENT_MAGIC));
    lemma_be64_roundtrip(base_offset);
    assert(f.subrange(7, 15) =~= be64(base_offset));
    assert(f.subrange(15, 47) =~= genesis_hash);
    lemma_be32_roundtrip(0);
    assert(f.subrange(252, 256) =~= be32(0));
    assert(Seq::new(0, |i: int| index_entry_at(f, 256 + 16 * i)) =~= Seq::<IndexEntry>::empty());
}

/// The checkpoint writes of an append stay inside the index region: the
/// new entry after the existing ones and the count in the header's last
/// four bytes; the record is written at the end of the data.
#[verifier::spinoff_prover]
#[verifier::rlimit(60)]
proof fn lemma_append_writes_shape(file: Seq<u8>, s: SegmentView, r: RecordView)
    requires
        file.len() == s.current_data_position,
        file.len() >= 65_536,
    ensures
        ({
            let f2 = apply_writes(file, append_writes(s, r).drop_last());
            let n = s.index_entries.len() as int;
            &&& f2.len() == file.len()
            &&& forall|i: int| 0 <= i < 252 ==> #[trigger] f2[i] == file[i]
            &&& forall|i: int| 256 <= i < 256 + 16 * n ==> #[trigger] f2[i] == file[i]
            &&& forall|i: int| 65_536 <= i < file.len() ==> #[trigger] f2[i] == file[i]
            &&& apply_writes(file, append_writes(s, r)) == f2 + encoded_record(r)
            &&& wants_index_entry(s) ==> f2.subrange(252, 256) == be32((n + 1) as u32)
                && f2.subrange(256 + 16 * n, 256 + 16 * n + 16) == index_entry_bytes(next_checkpoint(s))
            &&& !wants_index_entry(s) ==> f2 == file
        }),
{
    let ws = append_writes(s, r);
    let n = s.index_entries.len() as int;
    let e = encoded_record(r);
    let d = (s.current_data_position as int, e);
    if wants_index_entry(s) {
        let w0 = ((256 + 16 * n) as int, index_entry_bytes(next_checkpoint(s)));
        let w1 = (252int, be32((n + 1) as u32));
        assert(ws == seq![w0, w1, d]);
        assert(ws.drop_last() =~= seq![w0, w1]);
        assert(seq![w0, w1].drop_last() =~= seq![w0]);
        assert(seq![w0].drop_last() =~= Seq::<(int, Seq<u8>)>::empty());
        let f1 = write_at(file, w0.0, w0.1);
        assert(apply_writes(file, seq![w0].drop_last()) == file);
        assert(apply_writes(file, seq![w0]) == f1);
        assert(index_entry_bytes(next_checkpoint(s)).len() == 16);
        lemma_be32_roundtrip((n + 1) as u32);
        lemma_write_inside(file, w0.0, w0.1);
        lemma_write_inside(f1, 252, w1.1);
        let f2 = write_at(f1, 252, w1.1);
        assert(apply_writes(file, seq![w0, w1].drop_last()) == f1);
        assert(apply_writes(file, seq![w0, w1]) == f2);
        assert(apply_writes(file, ws.drop_last()) == f2);
        assert(apply_writes(file, ws) == write_at(f2, d.0, e));
        lemma_write_at_end(f2, e);
        assert(f2.subrange(256 + 16 * n, 256 + 16 * n + 16) =~= f1.subrange(256 + 16 * n, 256 + 16 * n + 16));
    } else {
        assert(ws == seq![d]);
        assert(ws.drop_last() =~= Seq::<(int, Seq<u8>)>::empty());
        assert(apply_writes(file, ws.drop_last()) == file);
        assert(apply_writes(file, ws) == write_at(file, d.0, e));
        lemma_write_at_end(file, e);
    }
}

/// An index entry depends only on its own sixteen bytes.
proof fn lemma_index_entry_bytes_at(x: Seq<u8>, y: Seq<u8>, pos: int)
    requires
        0 <= pos,
        pos + 16 <= x.len(),
        pos + 16 <= y.len(),
        forall|i: int| pos <= i < pos + 16 ==> #[trigger] x[i] == y[i],
    ensures
        index_entry_at(x, pos) == index_entry_at(y, pos),
{
    assert(x.subrange(pos, pos + 4) =~= y.subrange(pos, pos + 4));
    assert(x.subrange(pos + 4, pos + 12) =~= y.subrange(pos + 4, pos + 12));
    assert(x.subrange(pos + 12, pos + 16) =~= y.subrange(pos + 12, pos + 16));
}

/// The bytes of an index entry are read back as that entry.
proof fn lemma_index_entry_roundtrip(x: Seq<u8>, pos: int, e: IndexEntry)
    requires
        0 <= pos,
        pos + 16 <= x.len(),
        x.subrange(pos, pos + 16) == index_entry_bytes(e),
    ensures
        index_entry_at(x, pos) == e,
{
    let b = index_entry_bytes(e);
    lemma_be32_roundtrip(e.relative_offset);
    lemma_be64_roundtrip(e.physical_position);
    lemma_be32_roundtrip(e.timestamp_delta);
    assert(x.subrange(pos, pos + 4) =~= b.subrange(0, 4));
    assert(b.subrange(0, 4) =~= be32(e.relative_offset));
    assert(x.subrange(pos + 4, pos + 12) =~= b.subrange(4, 12));
    assert(b.subrange(4, 12) =~= be64(e.physical_position));
    assert(x.subrange(pos + 12, pos + 16) =~= b.subrange(12, 16));
    assert(b.subrange(12, 16) =~= be32(e.timestamp_delta));
}

/// A file that agrees with a held file on the header and data, whose index
/// holds the appended segment's index, with a new sealed record after the
/// data, holds the segment with that record appended.
#[verifier::spinoff_prover]
#[verifier::rlimit(60)]
proof fn lemma_extended_file_holds(file: Seq<u8>, g: Seq<u8>, s: SegmentView, r: RecordView)
    requires
        file_holds(file, s),
        can_append(s, r.key, r.value),
        record_fits(r),
        r.is_sealed(),
        r.offset == s.next_offset,
        g.len() == file.len() + encoded_record(r).len(),
        forall|i: int| 0 <= i < 252 ==> #[trigger] g[i] == file[i],
        forall|i: int| 65_536 <= i < file.len() ==> #[trigger] g[i] == file[i],
        g.subrange(file.len() as int, g.len() as int) == encoded_record(r),
        header_index_count(g) == appended(s, r).index_entries.len(),
        appended(s, r).index_entries.len() <= MAX_INDEX_ENTRIES,
        forall|i: int|
            0 <= i < appended(s, r).index_entries.len() ==> index_entry_at(g, 256 + 16 * i)
                == #[trigger] appended(s, r).index_entries[i],
    ensures
        file_holds(g, appended(s, r)),
{
    let e = encoded_record(r);
    lemma_record_roundtrip(r, seq![]);
    lemma_held_file(file, s);
    assert(g.subrange(0, 4) =~= file.subrange(0, 4));
    lemma_from_be32_prefix(g, file);
    assert(g.subrange(7, 15) =~= file.subrange(7, 15));
    assert(g.subrange(15, 47) =~= file.subrange(15, 47));
    let t = appended(s, r);
    let count = header_index_count(g);
    assert(Seq::new(count as nat, |i: int| index_entry_at(g, 256 + 16 * i)) =~= t.index_entries);
    lemma_scan_prefix(file, g, 65_536, s.base_offset, s.genesis_hash, s.next_offset, s.last_record_hash);
    lemma_scan_last_record(g, file.len(), s.next_offset, s.last_record_hash, r);
    assert(SegmentView { bytes_since_last_index: 0, ..t } == SegmentView {
        base_offset: s.base_offset,
        next_offset: (r.offset + 1) as u64,
        genesis_hash: s.genesis_hash,
        last_record_hash: r.record_hash,
        index_entries: Seq::new(count as nat, |i: int| index_entry_at(g, 256 + 16 * i)),
        current_data_position: g.len() as u64,
        bytes_since_last_index: 0,
    });
}

/// Appending a record keeps the file holding the segment: the writes that
/// `append` returns, applied to a file that holds the segment, give a file
/// that holds the appended segment. This holds of every record whose
/// lengths fit its encoding.
#[verifier::spinoff_prover]
#[verifier::rlimit(80)]
pub proof fn lemma_append_persists(file: Seq<u8>, s: SegmentView, r: RecordView)
    requires
        file_holds(file, s),
        can_append(s, r.key, r.value),
        record_fits(r),
        r.is_sealed(),
        r.offset == s.next_offset,
        r.prev_hash == s.last_record_hash,
    ensures
        file_holds(apply_writes(file, append_writes(s, r)), appended(s, r)),
{
    lemma_append_writes_shape(file, s, r);
    lemma_held_file(file, s);
    let f2 = apply_writes(file, append_writes(s, r).drop_last());
    let g = f2 + encoded_record(r);
    let t = appended(s, r);
    let n = s.index_entries.len() as int;
    assert(g.subrange(file.len() as int, g.len() as int) =~= encoded_record(r));
    assert forall|i: int| 0 <= i < 252 implies #[trigger] g[i] == file[i] by {
        assert(g[i] == f2[i]);
    }
    assert forall|i: int| 65_536 <= i < file.len() implies #[trigger] g[i] == file[i] by {
        assert(g[i] == f2[i]);
    }
    assert forall|i: int| 0 <= i < n implies index_entry_at(g, 256 + 16 * i) == #[trigger] s.index_entries[i] by {
        assert forall|k: int| 256 + 16 * i <= k < 256 + 16 * i + 16 implies #[trigger] g[k] == file[k] by {
            assert(g[k] == f2[k]);
        }
        lemma_index_entry_bytes_at(g, file, 256 + 16 * i);
    }
    if wants_index_entry(s) {
        assert(g.subrange(252, 256) =~= f2.subrange(252, 256));
        assert(g.subrange(256 + 16 * n, 256 + 16 * n + 16) =~= f2.subrange(256 + 16 * n, 256 + 16 * n + 16));
        lemma_index_entry_roundtrip(g, 256 + 16 * n, next_checkpoint(s));
        assert(t.index_entries == s.index_entries.push(next_checkpoint(s)));
        assert forall|i: int| 0 <= i < t.index_entries.len() implies index_entry_at(g, 256 + 16 * i)
            == #[trigger] t.index_entries[i] by {
            if i < n {
                assert(t.index_entries[i] == s.index_entries[i]);
            }
        }
    } else {
        assert(g.subrange(252, 256) =~= file.subrange(252, 256));
        assert(t.index_entries == s.index_entries);
    }
    lemma_extended_file_holds(file, g, s, r);
}

// --- What a read gives back ---

/// Where the `k`th of the records `rs` starts in a file whose data region
/// holds them.
pub open spec fn record_position(rs: Seq<RecordView>, k: int) -> int {
    65_536 + encoded_records(rs.take(k)).len() as int
}

/// The data region of the file holds exactly the encodings of `rs`.
#[verifier::opaque]
pub open spec fn data_holds(file: Seq<u8>, rs: Seq<RecordView>) -> bool {
    &&& file.len() >= 65_536
    &&& file.subrange(65_536, file.len() as int) == encoded_records(rs)
}

/// The record is sealed and fits its encoding.
#[verifier::opaque]
pub open spec fn record_ok(r: RecordView) -> bool {
    record_fits(r) && r.is_sealed()
}

/// One record per offset from `base` on, each sealed and fitting its encoding.
pub open spec fn numbered_from(rs: Seq<RecordView>, base: u64) -> bool {
    forall|i: int| 0 <= i < rs.len() ==> (#[trigger] rs[i]).offset == base + i && record_ok(rs[i])
}

/// The file holds the segment and, in its data region, the records `rs`
/// appended to it: one per offset from the base offset on, each sealed and
/// chained to the one before it (the first to the genesis hash, the last
/// giving the segment's last hash); every checkpoint, in increasing order,
/// names the position of the record at its relative offset.
pub open spec fn holds_records(file: Seq<u8>, s: SegmentView, rs: Seq<RecordView>) -> bool {
    &&& file_holds(file, s)
    &&& data_holds(file, rs)
    &&& rs.len() < 0x1_0000_0000
    &&& s.next_offset == s.base_offset + rs.len()
    &&& numbered_from(rs, s.base_offset)
    &&& forall|i: int| 0 < i < rs.len() ==> (#[trigger] rs[i]).prev_hash == rs[i - 1].record_hash
    &&& if rs.len() == 0 {
        s.last_record_hash == s.genesis_hash
    } else {
        rs[0].prev_hash == s.genesis_hash && s.last_record_hash == rs.last().record_hash
    }
    &&& index_sorted(s.index_entries)
    &&& forall|j: int|
        0 <= j < s.index_entries.len() ==> (#[trigger] s.index_entries[j]).relative_offset < rs.len()
            && s.index_entries[j].physical_position == record_position(
            rs,
            s.index_entries[j].relative_offset as int,
        )
}

/// The records a read with a budget of `max` bytes takes from `rs`: in
/// order, while fewer than `max` bytes have been taken, so that the last may
/// run past the budget.
pub open spec fn within_budget(rs: Seq<RecordView>, max: int) -> Seq<RecordView>
    decreases rs.len(),
{
    if rs.len() == 0 || max <= 0 {
        seq![]
    } else {
        seq![rs[0]] + within_budget(rs.drop_first(), max - encoded_record(rs[0]).len())
    }
}

/// A new segment file holds the new segment and no records.
pub proof fn lemma_fresh_file_holds_records(base_offset: u64, genesis_hash: Seq<u8>)
    requires
        genesis_hash.len() == 32,
    ensures
        holds_records(
            fresh_segment_file(base_offset, genesis_hash),
            created(base_offset, genesis_hash),
            seq![],
        ),
{
    lemma_fresh_file_holds(base_offset, genesis_hash);
    reveal(data_holds);
    let f = fresh_segment_file(base_offset, genesis_hash);
    assert(f.subrange(65_536, f.len() as int) =~= encoded_records(seq![]));
}

/// Appending a record keeps the file holding the segment's records, with
/// the new record at their end. This holds while the segment has fewer than
/// 2^32 - 1 records, beyond which checkpoints' 32-bit relative offsets wrap.
#[verifier::rlimit(40)]
pub proof fn lemma_append_keeps_records(file: Seq<u8>, s: SegmentView, rs: Seq<RecordView>, r: RecordView)
    requires
        holds_records(file, s, rs),
        rs.len() + 1 < 0x1_0000_0000,
        can_append(s, r.key, r.value),
        record_fits(r),
        r.is_sealed(),
        r.offset == s.next_offset,
        r.prev_hash == s.last_record_hash,
    ensures
        holds_records(apply_writes(file, append_writes(s, r)), appended(s, r), rs.push(r)),
{
    lemma_append_persists(file, s, r);
    lemma_append_writes_shape(file, s, r);
    reveal(data_holds);
    reveal(record_ok);
    let f2 = apply_writes(file, append_writes(s, r).drop_last());
    let g = apply_writes(file, append_writes(s, r));
    let e = encoded_record(r);
    let rs2 = rs.push(r);
    let t = appended(s, r);
    assert(f2.subrange(65_536, f2.len() as int) =~= file.subrange(65_536, file.len() as int));
    assert(g.subrange(65_536, g.len() as int) =~= f2.subrange(65_536, f2.len() as int) + e);
    assert(rs2.drop_last() =~= rs);
    assert(g.subrange(65_536, g.len() as int) == encoded_records(rs2));
    assert forall|i: int| 0 <= i < rs2.len() implies (#[trigger] rs2[i]).offset == t.base_offset + i
        && record_ok(rs2[i]) by {
        if i < rs.len() {
            assert(rs2[i] == rs[i]);
        }
    }
    assert forall|i: int| 0 < i < rs2.len() implies (#[trigger] rs2[i]).prev_hash == rs2[i
        - 1].record_hash by {
        if i < rs.len() {
            assert(rs2[i] == rs[i]);
        }
        assert(rs2[i - 1] == rs[i - 1]);
    }
    assert forall|k: int| 0 <= k <= rs.len() implies record_position(rs2, k) == record_position(rs, k) by {
        assert(rs2.take(k) =~= rs.take(k));
    }
    assert(rs.take(rs.len() as int) =~= rs);
    assert(file.len() == 65_536 + encoded_records(rs).len());
    let entries = t.index_entries;
    if wants_index_entry(s) {
        let c = next_checkpoint(s);
        assert(entries == s.index_entries.push(c));
        assert(c.relative_offset == rs.len());
        assert(c.physical_position == record_position(rs2, rs.len() as int));
        assert forall|j: int| 0 <= j < entries.len() implies (#[trigger] entries[j]).relative_offset
            < rs2.len() && entries[j].physical_position == record_position(
            rs2,
            entries[j].relative_offset as int,
        ) by {
            if j < s.index_entries.len() {
                assert(entries[j] == s.index_entries[j]);
            }
        }
        assert forall|i: int, j: int| 0 <= i < j < entries.len() implies entries[i].relative_offset
            < entries[j].relative_offset by {
            assert(entries[i] == s.index_entries[i]);
            if j < s.index_entries.len() {
                assert(entries[j] == s.index_entries[j]);
            }
        }
    } else {
        assert(entries == s.index_entries);
    }
}

/// Reopening a file that holds a segment's records recovers the segment,
/// index included, with a fresh checkpoint interval, holding the same records.
pub proof fn lemma_recovered_holds_records(file: Seq<u8>, s: SegmentView, rs: Seq<RecordView>)
    requires
        holds_records(file, s, rs),
    ensures
        recover_segment(file) == RecoverOutcome::Recovered(
            SegmentView { bytes_since_last_index: 0, ..s },
            None,
        ),
        holds_records(file, SegmentView { bytes_since_last_index: 0, ..s }, rs),
{
}

/// The encodings up to and including the `j`th record are those before it
/// followed by its own.
proof fn lemma_take_next(rs: Seq<RecordView>, j: int)
    requires
        0 <= j < rs.len(),
    ensures
        encoded_records(rs.take(j + 1)) == encoded_records(rs.take(j)) + encoded_record(rs[j]),
{
    let b = rs.take(j + 1);
    assert(b.drop_last() =~= rs.take(j));
    assert(b.last() == rs[j]);
}

/// The encodings of `rs` split after the `j`th record.
proof fn lemma_split_after(rs: Seq<RecordView>, j: int)
    requires
        0 <= j < rs.len(),
    ensures
        encoded_records(rs) == encoded_records(rs.take(j + 1)) + encoded_records(rs.skip(j + 1)),
{
    lemma_encoded_records_concat(rs.take(j + 1), rs.skip(j + 1));
    assert(rs.take(j + 1) + rs.skip(j + 1) =~= rs);
}

/// The middle part of a sequence joined from three.
proof fn lemma_middle(d: Seq<u8>, a: Seq<u8>, e: Seq<u8>, b: Seq<u8>)
    requires
        d == a + e + b,
    ensures
        d.subrange(a.len() as int, (a.len() + e.len()) as int) == e,
{
    assert(d.subrange(a.len() as int, (a.len() + e.len()) as int) =~= e);
}

/// The `j`th record lies in the file, encoded, from its position to the next one's.
#[verifier::spinoff_prover]
#[verifier::rlimit(40)]
proof fn lemma_record_at(file: Seq<u8>, rs: Seq<RecordView>, j: int)
    requires
        data_holds(file, rs),
        0 <= j < rs.len(),
    ensures
        record_position(rs, j + 1) == record_position(rs, j) + encoded_record(rs[j]).len(),
        record_position(rs, j + 1) <= file.len(),
        file.subrange(record_position(rs, j), record_position(rs, j + 1)) == encoded_record(rs[j]),
{
    reveal(data_holds);
    let e = encoded_record(rs[j]);
    let ea = encoded_records(rs.take(j));
    let eb = encoded_records(rs.skip(j + 1));
    lemma_take_next(rs, j);
    lemma_split_after(rs, j);
    let d = file.subrange(65_536, file.len() as int);
    assert(d == ea + e + eb);
    lemma_middle(d, ea, e, eb);
    let la = ea.len() as int;
    assert(file.subrange(65_536 + la, 65_536 + la + e.len()) =~= d.subrange(la, la + e.len()));
}

/// Positions grow with the records before them.
#[verifier::rlimit(20)]
proof fn lemma_position_grows(rs: Seq<RecordView>, k: int, j: int)
    requires
        0 <= k <= j <= rs.len(),
    ensures
        record_position(rs, k) <= record_position(rs, j),
{
    let a = rs.take(k);
    let b = rs.subrange(k, j);
    lemma_encoded_records_concat(a, b);
    assert(a + b =~= rs.take(j));
}

/// Past the last record is the end of the file.
proof fn lemma_position_end(file: Seq<u8>, rs: Seq<RecordView>)
    requires
        data_holds(file, rs),
    ensures
        record_position(rs, rs.len() as int) == file.len(),
{
    reveal(data_holds);
    assert(rs.take(rs.len() as int) =~= rs);
}

/// The checkpoint a read from `start` begins at is the position of a record
/// at or before `start`.
proof fn lemma_checkpoint_is_record(file: Seq<u8>, s: SegmentView, rs: Seq<RecordView>, start: u64) -> (k: int)
    requires
        holds_records(file, s, rs),
        s.base_offset <= start < s.next_offset,
    ensures
        0 <= k <= start - s.base_offset,
        checkpoint_position(s, start) == record_position(rs, k),
{
    assert(rs.take(0) =~= Seq::<RecordView>::empty());
    let entries = s.index_entries;
    if entries.len() == 0 {
        0
    } else {
        let target = (start - s.base_offset) as u32;
        assert(target == start - s.base_offset);
        lemma_upper_bound_sorted(entries, target, 0, entries.len() as int);
        let kk = upper_bound(entries, target, 0, entries.len() as int);
        if kk == 0 {
            0
        } else {
            assert(entries[kk - 1].relative_offset <= target);
            entries[kk - 1].relative_offset as int
        }
    }
}

/// The `j`th record is what a read finds at its position.
#[verifier::rlimit(30)]
proof fn lemma_read_finds(file: Seq<u8>, rs: Seq<RecordView>, base: u64, p: int, j: int)
    requires
        data_holds(file, rs),
        numbered_from(rs, base),
        0 <= j < rs.len(),
        65_536 <= p <= record_position(rs, j),
    ensures
        record_position(rs, j) - p + encoded_record(rs[j]).len() <= file.skip(p).len(),
        file.skip(p).subrange(
            record_position(rs, j) - p,
            record_position(rs, j) - p + encoded_record(rs[j]).len(),
        ) == encoded_record(rs[j]),
        record_position(rs, j + 1) == record_position(rs, j) + encoded_record(rs[j]).len(),
{
    lemma_record_at(file, rs, j);
    let e = encoded_record(rs[j]);
    let pj = record_position(rs, j);
    let t = file.skip(p);
    let i = pj - p;
    assert(t.subrange(i, i + e.len()) =~= file.subrange(pj, pj + e.len()));
}

/// A sealed record that fits its encoding, found encoded at position `i` of
/// `t`, is what decoding there finds.
#[verifier::rlimit(100)]
proof fn lemma_parse_at(t: Seq<u8>, i: int, r: RecordView)
    requires
        record_ok(r),
        0 <= i,
        i + encoded_record(r).len() <= t.len(),
        t.subrange(i, i + encoded_record(r).len()) == encoded_record(r),
    ensures
        i + 4 <= t.len(),
        4 + from_be32(t.subrange(i, i + 4)) == encoded_record(r).len(),
        parse_record(t.subrange(i, i + encoded_record(r).len())) == RecordParse::Parsed(r),
{
    reveal(record_ok);
    let e = encoded_record(r);
    lemma_record_roundtrip(r, seq![]);
    assert(e + seq![] =~= e);
    assert(parse_record(e) == RecordParse::Parsed(r));
    assert(from_be32(e) == e.len() - 4);
    let w = t.subrange(i, i + e.len());
    let q = t.subrange(i, i + 4);
    assert(q =~= w.subrange(0, 4));
    assert(q.subrange(0, 4) =~= e.subrange(0, 4));
    lemma_from_be32_prefix(q, e);
}

/// One step of a read that takes the record it finds.
proof fn lemma_scan_takes(
    t: Seq<u8>,
    i: nat,
    abs: int,
    end: int,
    start: u64,
    max: nat,
    taken: nat,
    acc: Seq<RecordView>,
    r: RecordView,
    full: int,
)
    requires
        abs < end,
        taken < max,
        i + 4 <= t.len(),
        full == 4 + from_be32(t.subrange(i as int, i as int + 4)) as int,
        i + full <= t.len(),
        parse_record(t.subrange(i as int, i + full)) == RecordParse::Parsed(r),
        abs + full <= u64::MAX,
        r.offset >= start,
        taken + full <= usize::MAX,
    ensures
        read_scan(t, i, abs, end, start, max, taken, acc) == read_scan(
            t,
            (i + full) as nat,
            abs + full,
            end,
            start,
            max,
            (taken + full) as nat,
            acc.push(r),
        ),
{
}

/// One step of a read that passes over the record it finds.
proof fn lemma_scan_passes(
    t: Seq<u8>,
    i: nat,
    abs: int,
    end: int,
    start: u64,
    max: nat,
    r: RecordView,
    full: int,
)
    requires
        abs < end,
        0 < max,
        i + 4 <= t.len(),
        full == 4 + from_be32(t.subrange(i as int, i as int + 4)) as int,
        i + full <= t.len(),
        parse_record(t.subrange(i as int, i + full)) == RecordParse::Parsed(r),
        abs + full <= u64::MAX,
        r.offset < start,
    ensures
        read_scan(t, i, abs, end, start, max, 0, seq![]) == read_scan(
            t,
            (i + full) as nat,
            abs + full,
            end,
            start,
            max,
            0,
            seq![],
        ),
{
}

/// From the `j`th record on, with every record from the `start`th taken so
/// far, a read takes the rest as the budget allows.
#[verifier::spinoff_prover]
#[verifier::rlimit(60)]
proof fn lemma_read_takes(
    file: Seq<u8>,
    rs: Seq<RecordView>,
    base: u64,
    p: int,
    j: int,
    start: u64,
    max: nat,
    acc: Seq<RecordView>,
)
    requires
        data_holds(file, rs),
        numbered_from(rs, base),
        file.len() <= usize::MAX,
        file.len() <= u64::MAX,
        base <= start,
        start - base <= j <= rs.len(),
        65_536 <= p <= record_position(rs, start - base),
    ensures
        read_scan(
            file.skip(p),
            (record_position(rs, j) - p) as nat,
            record_position(rs, j),
            file.len() as int,
            start,
            max,
            (record_position(rs, j) - record_position(rs, start - base)) as nat,
            acc,
        ) == ReadEnd::Done(
            acc + within_budget(rs.skip(j), max - (record_position(rs, j) - record_position(rs, start - base))),
        ),
    decreases rs.len() - j,
{
    let s0 = start - base;
    let pj = record_position(rs, j);
    let taken = pj - record_position(rs, s0);
    lemma_position_grows(rs, s0, j);
    lemma_position_grows(rs, j, rs.len() as int);
    lemma_position_end(file, rs);
    if j == rs.len() {
        assert(rs.skip(j) =~= Seq::<RecordView>::empty());
        assert(acc + seq![] =~= acc);
    } else if taken >= max {
        assert(acc + seq![] =~= acc);
    } else {
        let r = rs[j];
        let e = encoded_record(r);
        lemma_read_finds(file, rs, base, p, j);
        lemma_parse_at(file.skip(p), pj - p, r);
        lemma_position_grows(rs, j + 1, rs.len() as int);
        lemma_scan_takes(
            file.skip(p),
            (pj - p) as nat,
            pj,
            file.len() as int,
            start,
            max,
            taken as nat,
            acc,
            r,
            e.len() as int,
        );
        lemma_read_takes(file, rs, base, p, j + 1, start, max, acc.push(r));
        assert(rs.skip(j).drop_first() =~= rs.skip(j + 1));
        assert(rs.skip(j)[0] == r);
        assert(acc.push(r) + within_budget(rs.skip(j + 1), max - taken - e.len()) =~= acc + (seq![r]
            + within_budget(rs.skip(j + 1), max - taken - e.len())));
    }
}

/// Before the `start`th record, a read passes over the records it finds.
#[verifier::spinoff_prover]
#[verifier::rlimit(60)]
proof fn lemma_read_skips(
    file: Seq<u8>,
    rs: Seq<RecordView>,
    base: u64,
    p: int,
    j: int,
    start: u64,
    max: nat,
)
    requires
        data_holds(file, rs),
        numbered_from(rs, base),
        file.len() <= usize::MAX,
        file.len() <= u64::MAX,
        base <= start < base + rs.len(),
        0 <= j <= start - base,
        65_536 <= p <= record_position(rs, j),
    ensures
        read_scan(
            file.skip(p),
            (record_position(rs, j) - p) as nat,
            record_position(rs, j),
            file.len() as int,
            start,
            max,
            0,
            seq![],
        ) == ReadEnd::Done(within_budget(rs.skip(start - base), max as int)),
    decreases start - base - j,
{
    let s0 = start - base;
    if j == s0 {
        lemma_read_takes(file, rs, base, p, j, start, max, seq![]);
        assert(seq![] + within_budget(rs.skip(s0), max as int) =~= within_budget(rs.skip(s0), max as int));
    } else if max == 0 {
    } else {
        let pj = record_position(rs, j);
        lemma_read_finds(file, rs, base, p, j);
        lemma_parse_at(file.skip(p), pj - p, rs[j]);
        lemma_position_grows(rs, j + 1, rs.len() as int);
        lemma_position_end(file, rs);
        lemma_scan_passes(
            file.skip(p),
            (pj - p) as nat,
            pj,
            file.len() as int,
            start,
            max,
            rs[j],
            encoded_record(rs[j]).len() as int,
        );
        lemma_read_skips(file, rs, base, p, j + 1, start, max);
    }
}

/// Reading gives back what was appended: from a file that holds a segment's
/// records, a read from offset `start` with a budget of `max` bytes returns
/// the records from `start` on, in order, as many as the budget takes (the
/// last may run past it), and nothing when `start` lies outside the segment.
pub proof fn lemma_read_returns_records(
    file: Seq<u8>,
    s: SegmentView,
    rs: Seq<RecordView>,
    start: u64,
    max: nat,
)
    requires
        holds_records(file, s, rs),
        file.len() <= usize::MAX,
    ensures
        segment_read(s, file.skip(checkpoint_position(s, start) as int), start, max) == ReadEnd::Done(
            if start < s.base_offset || start >= s.next_offset {
                seq![]
            } else {
                within_budget(rs.skip(start - s.base_offset), max as int)
            },
        ),
{
    if s.base_offset <= start < s.next_offset {
        let k = lemma_checkpoint_is_record(file, s, rs, start);
        assert(rs.take(0) =~= Seq::<RecordView>::empty());
        lemma_position_grows(rs, 0, k);
        lemma_read_skips(file, rs, s.base_offset, record_position(rs, k), k, start, max);
    }
}

} // verus!

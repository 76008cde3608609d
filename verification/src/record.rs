//! Records: the unit of storage, their binary encoding, and decoding with
//! checksum and hash-chain verification.

pub mod hex;

use vstd::prelude::*;
use crate::error::VortexError;
use crate::hash::{
    compute_record_hash, crc32, crc32_checksum, record_digest, verify_record_integrity,
    HashDigest,
};
use crate::text::hex_text;
use crate::wire::{
    lemma_be32_read, lemma_be32_roundtrip, lemma_be64_read, lemma_be64_roundtrip, be32, be64, copy_range, from_be32, from_be64, put_slice, put_u32, put_u64, read_u32_at,
    read_u64_at, ByteReader,
};

verus! {

/// Minimum overhead of a serialized record (excluding key and value payloads):
/// total_len (4) + crc32 (4) + offset (8) + timestamp (8) + prev_hash (32) +
/// record_hash (32) + key_len (4) + val_len (4) = 96 bytes.
pub const RECORD_HEADER_SIZE: usize = 96;

/// One event in a partition's log, chained by hash to its predecessor.
#[derive(Clone, Debug, PartialEq, Eq)]
pub struct Record {
    pub offset: u64,
    pub timestamp: u64,
    pub prev_hash: HashDigest,
    pub record_hash: HashDigest,
    pub key: Option<Vec<u8>>,
    pub value: Vec<u8>,
}

/// The contents of a record as mathematical values.
pub struct RecordView {
    pub offset: u64,
    pub timestamp: u64,
    pub prev_hash: Seq<u8>,
    pub record_hash: Seq<u8>,
    pub key: Option<Seq<u8>>,
    pub value: Seq<u8>,
}

/// The contents of an optional owned byte buffer.
pub open spec fn opt_vec(key: Option<Vec<u8>>) -> Option<Seq<u8>> {
    match key {
        Some(k) => Some(k@),
        None => None,
    }
}

impl View for Record {
    type V = RecordView;

    open spec fn view(&self) -> RecordView {
        RecordView {
            offset: self.offset,
            timestamp: self.timestamp,
            prev_hash: self.prev_hash@,
            record_hash: self.record_hash@,
            key: opt_vec(self.key),
            value: self.value@,
        }
    }
}

/// The views of a sequence of records.
pub open spec fn record_views(rs: Seq<Record>) -> Seq<RecordView> {
    rs.map_values(|r: Record| r@)
}

impl RecordView {
    /// The record's hash is the digest of its own fields and predecessor.
    pub open spec fn is_sealed(self) -> bool {
        self.record_hash == record_digest(
            self.prev_hash,
            self.offset,
            self.timestamp,
            self.key,
            self.value,
        )
    }
}

/// The key-length field followed by the key: the length as a 32-bit two's
/// complement number, or -1 when there is no key.
pub open spec fn key_field(key: Option<Seq<u8>>) -> Seq<u8> {
    match key {
        Some(k) => be32(k.len() as u32) + k,
        None => be32(0xFFFF_FFFF),
    }
}

/// The checksummed part of an encoded record.
pub open spec fn record_payload(r: RecordView) -> Seq<u8> {
    be64(r.offset) + be64(r.timestamp) + r.prev_hash + r.record_hash + key_field(r.key) + be32(
        r.value.len() as u32,
    ) + r.value
}

/// The encoding of a record:
/// [total_len: u32][crc32: u32][offset: u64][timestamp: u64][prev_hash: 32B]
/// [record_hash: 32B][key_len: i32][key][val_len: u32][val], all big-endian,
/// where total_len counts the checksum and the payload.
pub open spec fn encoded_record(r: RecordView) -> Seq<u8> {
    let p = record_payload(r);
    be32(((p.len() as u32) + 4) as u32) + be32(crc32_checksum(p)) + p
}

/// The encodings of a sequence of records, one after another.
pub open spec fn encoded_records(rs: Seq<RecordView>) -> Seq<u8>
    decreases rs.len(),
{
    if rs.len() == 0 {
        seq![]
    } else {
        encoded_records(rs.drop_last()) + encoded_record(rs.last())
    }
}

/// The length of a record's payload: everything but the key and value is 88 bytes.
pub open spec fn payload_len(r: RecordView) -> int {
    88 + match r.key {
        Some(k) => k.len() as int,
        None => 0int,
    } + r.value.len()
}

/// The record's lengths fit the fields of its encoding, so that decoding
/// gives back what was encoded.
pub open spec fn record_fits(r: RecordView) -> bool {
    &&& r.prev_hash.len() == 32
    &&& r.record_hash.len() == 32
    &&& match r.key {
        Some(k) => k.len() < 0x8000_0000,
        None => true,
    }
    &&& payload_len(r) + 4 <= u32::MAX
}

/// What decoding finds at the front of a byte sequence.
pub enum RecordParse {
    /// The bytes cannot be decoded without running past a field's end:
    /// a length field below 4, or a checksummed payload too short for the
    /// fields it announces.
    Unparseable,
    Underflow { needed: nat, available: nat, consumed: nat },
    ChecksumMismatch { expected: u32, actual: u32 },
    LineageBroken { offset: u64, stated: Seq<u8>, computed: Seq<u8> },
    Parsed(RecordView),
}

/// The fields of a checksummed payload, if it is long enough for them.
/// Bytes after the value are ignored.
#[verifier::opaque]
pub open spec fn parse_record_payload(p: Seq<u8>) -> Option<RecordView> {
    if p.len() < 84 {
        None
    } else {
        let offset = from_be64(p);
        let timestamp = from_be64(p.subrange(8, 16));
        let prev_hash = p.subrange(16, 48);
        let record_hash = p.subrange(48, 80);
        let key_len = from_be32(p.subrange(80, 84));
        if key_len < 0x8000_0000 {
            let k = key_len as int;
            if p.len() < 88 + k {
                None
            } else {
                let v = from_be32(p.subrange(84 + k, 88 + k)) as int;
                if p.len() < 88 + k + v {
                    None
                } else {
                    Some(
                        RecordView {
                            offset,
                            timestamp,
                            prev_hash,
                            record_hash,
                            key: Some(p.subrange(84, 84 + k)),
                            value: p.subrange(88 + k, 88 + k + v),
                        },
                    )
                }
            }
        } else {
            if p.len() < 88 {
                None
            } else {
                let v = from_be32(p.subrange(84, 88)) as int;
                if p.len() < 88 + v {
                    None
                } else {
                    Some(
                        RecordView {
                            offset,
                            timestamp,
                            prev_hash,
                            record_hash,
                            key: None,
                            value: p.subrange(88, 88 + v),
                        },
                    )
                }
            }
        }
    }
}

/// The outcome of decoding a record from the front of `s`.
#[verifier::opaque]
pub open spec fn parse_record(s: Seq<u8>) -> RecordParse {
    if s.len() < 8 {
        RecordParse::Underflow { needed: 8, available: s.len(), consumed: 0 }
    } else {
        let total = from_be32(s) as int;
        if s.len() - 4 < total {
            RecordParse::Underflow { needed: total as nat, available: (s.len() - 4) as nat, consumed: 4 }
        } else if total < 4 {
            RecordParse::Unparseable
        } else {
            let expected = from_be32(s.subrange(4, 8));
            let p = s.subrange(8, 4 + total);
            let actual = crc32_checksum(p);
            if expected != actual {
                RecordParse::ChecksumMismatch { expected, actual }
            } else {
                match parse_record_payload(p) {
                    None => RecordParse::Unparseable,
                    Some(r) => {
                        let computed = record_digest(
                            r.prev_hash,
                            r.offset,
                            r.timestamp,
                            r.key,
                            r.value,
                        );
                        if computed != r.record_hash {
                            RecordParse::LineageBroken { offset: r.offset, stated: r.record_hash, computed }
                        } else {
                            RecordParse::Parsed(r)
                        }
                    },
                }
            }
        }
    }
}

/// How many bytes decoding takes from the front of `s`.
pub open spec fn record_consumed(s: Seq<u8>) -> nat {
    match parse_record(s) {
        RecordParse::Underflow { consumed, .. } => consumed,
        _ => (4 + from_be32(s)) as nat,
    }
}

/// Decoding never takes more bytes than there are.
pub proof fn lemma_record_consumed_bound(s: Seq<u8>)
    requires
        !(parse_record(s) is Unparseable),
    ensures
        record_consumed(s) <= s.len(),
{
    reveal(parse_record);
}

/// The error, or the record, that decoding reports for a given outcome.
pub open spec fn decode_reports(outcome: RecordParse, result: Result<Record, VortexError>) -> bool {
    match (outcome, result) {
        (
            RecordParse::Underflow { needed, available, .. },
            Err(VortexError::BufferUnderflow { needed: n, available: a }),
        ) => n == needed && a == available,
        (
            RecordParse::ChecksumMismatch { expected, actual },
            Err(VortexError::CorruptedRecordCrc { offset: o, expected: e, actual: a }),
        ) => o == 0 && e == expected && a == actual,
        (
            RecordParse::LineageBroken { offset, stated, computed },
            Err(VortexError::CryptographicLineageBroken { offset: o, expected: e, actual: a }),
        ) => o == offset && e@ == hex_text(stated) && a@ == hex_text(computed),
        (RecordParse::Parsed(r), Ok(rec)) => rec@ == r,
        _ => false,
    }
}

fn digest_at(data: &[u8], pos: usize) -> (h: HashDigest)
    requires
        pos + 32 <= data@.len(),
    ensures
        h@ == data@.subrange(pos as int, pos + 32),
{
    let mut h: HashDigest = [0u8; 32];
    let n = data.len();
    let mut i: usize = 0;
    while i < 32
        invariant
            i <= 32,
            n == data@.len(),
            pos + 32 <= data@.len(),
            forall|j: int| 0 <= j < i ==> h@[j] == data@[pos + j],
        decreases 32 - i,
    {
        h[i] = data[pos + i];
        i = i + 1;
    }
    assert(h@ =~= data@.subrange(pos as int, pos + 32));
    h
}

impl Record {
    /// Creates a new record stamped with the current time and sealed with the
    /// Blake3 hash of its fields chained to `prev_hash`.
    pub fn new(prev_hash: HashDigest, offset: u64, key: Option<Vec<u8>>, value: Vec<u8>) -> (r:
        Self)
        ensures
            r.offset == offset,
            r.prev_hash == prev_hash,
            r@.key == opt_vec(key),
            r.value@ == value@,
            r@.is_sealed(),
    {
        let timestamp = crate::clock::unix_millis_now();
        Self::new_at(prev_hash, offset, timestamp, key, value)
    }

    /// Creates a record with the given timestamp, sealed with the Blake3 hash
    /// of its fields chained to `prev_hash`.
    pub fn new_at(
        prev_hash: HashDigest,
        offset: u64,
        timestamp: u64,
        key: Option<Vec<u8>>,
        value: Vec<u8>,
    ) -> (r: Self)
        ensures
            r.offset == offset,
            r.timestamp == timestamp,
            r.prev_hash == prev_hash,
            r@.key == opt_vec(key),
            r.value@ == value@,
            r@.is_sealed(),
    {
        let record_hash = match &key {
            Some(k) => compute_record_hash(
                &prev_hash,
                offset,
                timestamp,
                Some(k.as_slice()),
                value.as_slice(),
            ),
            None => compute_record_hash(&prev_hash, offset, timestamp, None, value.as_slice()),
        };
        Self { offset, timestamp, prev_hash, record_hash, key, value }
    }

    /// Explicit constructor allowing specific timestamp and pre-calculated
    /// hashes (e.g. for replication or recovery).
    pub fn with_metadata(
        offset: u64,
        timestamp: u64,
        prev_hash: HashDigest,
        record_hash: HashDigest,
        key: Option<Vec<u8>>,
        value: Vec<u8>,
    ) -> (r: Self)
        ensures
            r.offset == offset,
            r.timestamp == timestamp,
            r.prev_hash == prev_hash,
            r.record_hash == record_hash,
            r.key == key,
            r.value == value,
    {
        Self { offset, timestamp, prev_hash, record_hash, key, value }
    }

    /// Whether the record can be encoded: its payload's length fits the
    /// 32-bit length field with the checksum's four bytes.
    pub fn is_encodable(&self) -> (r: bool)
        ensures
            r == (payload_len(self@) <= usize::MAX && (payload_len(self@) as u32) + 4 <= u32::MAX),
    {
        let key_len: usize = match &self.key {
            Some(k) => k.len(),
            None => 0,
        };
        if key_len > usize::MAX - 88 || self.value.len() > usize::MAX - 88 - key_len {
            return false;
        }
        let payload_size = 88 + key_len + self.value.len();
        (payload_size as u32) <= u32::MAX - 4
    }

    /// Serializes the record into its deterministic binary format (see
    /// `encoded_record`).
    pub fn encode(&self) -> (out: Vec<u8>)
        requires
            payload_len(self@) <= usize::MAX,
            (payload_len(self@) as u32) + 4 <= u32::MAX,
        ensures
            out@ == encoded_record(self@),
    {
        let key_len: usize = match &self.key {
            Some(k) => k.len(),
            None => 0,
        };
        let val_len = self.value.len();
        let payload_size: usize = 8 + 8 + 32 + 32 + 4 + key_len + 4 + val_len;
        let total_len: u32 = 4 + payload_size as u32;

        let mut payload: Vec<u8> = Vec::with_capacity(payload_size);
        put_u64(&mut payload, self.offset);
        put_u64(&mut payload, self.timestamp);
        put_slice(&mut payload, self.prev_hash.as_slice());
        put_slice(&mut payload, self.record_hash.as_slice());
        match &self.key {
            Some(k) => {
                put_u32(&mut payload, k.len() as u32);
                put_slice(&mut payload, k.as_slice());
            },
            None => {
                put_u32(&mut payload, 0xFFFF_FFFF);
            },
        }
        put_u32(&mut payload, val_len as u32);
        put_slice(&mut payload, self.value.as_slice());
        assert(payload@ =~= record_payload(self@));

        let crc = crc32(payload.as_slice());

        let mut full: Vec<u8> = Vec::new();
        put_u32(&mut full, total_len);
        put_u32(&mut full, crc);
        put_slice(&mut full, payload.as_slice());
        assert(full@ =~= encoded_record(self@));
        full
    }

    /// Whether decoding the front of `s` runs past a field's end.
    pub(crate) fn runs_past_end(s: &[u8]) -> (r: bool)
        ensures
            r == (parse_record(s@) is Unparseable),
    {
        reveal(parse_record);
        let n = s.len();
        if n < 8 {
            return false;
        }
        let total = read_u32_at(s, 0) as usize;
        if n - 4 < total {
            return false;
        }
        if total < 4 {
            return true;
        }
        let expected = read_u32_at(s, 4);
        let payload = vstd::slice::slice_subrange(s, 8, 4 + total);
        if crc32(payload) != expected {
            return false;
        }
        !Self::payload_fits(payload)
    }

    /// Whether a checksummed payload holds every field it announces.
    fn payload_fits(p: &[u8]) -> (r: bool)
        ensures
            r == (parse_record_payload(p@) is Some),
    {
        reveal(parse_record_payload);
        let n = p.len();
        if n < 84 {
            return false;
        }
        let key_len = read_u32_at(p, 80) as usize;
        if key_len < 0x8000_0000 {
            if n < 88 + key_len {
                return false;
            }
            let v = read_u32_at(p, 84 + key_len) as usize;
            n - (88 + key_len) >= v
        } else {
            if n < 88 {
                return false;
            }
            let v = read_u32_at(p, 84) as usize;
            n - 88 >= v
        }
    }

    /// Decodes a binary record from the front of `buf` and verifies both its
    /// CRC32 checksum and its hash against its fields.
    pub fn decode(buf: &mut ByteReader) -> (result: Result<Self, VortexError>)
        requires
            !(parse_record(old(buf)@) is Unparseable),
        ensures
            decode_reports(parse_record(old(buf)@), result),
            final(buf)@ == old(buf)@.skip(record_consumed(old(buf)@) as int),
    {
        reveal(parse_record_payload);
        reveal(parse_record);
        let ghost s = buf@;
        if buf.remaining() < 8 {
            let available = buf.remaining();
            return Err(VortexError::BufferUnderflow { needed: 8, available });
        }
        let total_len = buf.get_u32() as usize;
        if buf.remaining() < total_len {
            let available = buf.remaining();
            return Err(VortexError::BufferUnderflow { needed: total_len, available });
        }
        let expected_crc = buf.get_u32();
        let payload_len = total_len - 4;
        let payload = buf.copy_to_vec(payload_len);
        proof {
            assert(payload@ =~= s.subrange(8, 4 + total_len));
            assert(buf@ =~= s.skip(4 + total_len));
            assert(s.skip(4).subrange(0, 4) =~= s.subrange(4, 8));
        }
        let actual_crc = crc32(payload.as_slice());
        if expected_crc != actual_crc {
            return Err(VortexError::CorruptedRecordCrc {
                offset: 0,
                expected: expected_crc,
                actual: actual_crc,
            });
        }
        let p = payload.as_slice();
        let n = p.len();
        let offset = read_u64_at(p, 0);
        let timestamp = read_u64_at(p, 8);
        let prev_hash = digest_at(p, 16);
        let record_hash = digest_at(p, 48);
        let key_len = read_u32_at(p, 80) as usize;
        let (key, val_start, val_len) = if key_len < 0x8000_0000 {
            let k = copy_range(p, 84, 84 + key_len);
            let v = read_u32_at(p, 84 + key_len) as usize;
            (Some(k), 88 + key_len, v)
        } else {
            let v = read_u32_at(p, 84) as usize;
            (None, 88, v)
        };
        let value = copy_range(p, val_start, val_start + val_len);
        proof {
            assert(from_be64(p@.subrange(0, 8)) == from_be64(p@)) by {
                assert(p@.subrange(0, 8).subrange(4, 8) =~= p@.subrange(4, 8));
            }
        }
        let ok = match &key {
            Some(k) => verify_record_integrity(
                &prev_hash,
                &record_hash,
                offset,
                timestamp,
                Some(k.as_slice()),
                value.as_slice(),
            ),
            None => verify_record_integrity(
                &prev_hash,
                &record_hash,
                offset,
                timestamp,
                None,
                value.as_slice(),
            ),
        };
        if !ok {
            let computed = match &key {
                Some(k) => compute_record_hash(
                    &prev_hash,
                    offset,
                    timestamp,
                    Some(k.as_slice()),
                    value.as_slice(),
                ),
                None => compute_record_hash(&prev_hash, offset, timestamp, None, value.as_slice()),
            };
            return Err(VortexError::CryptographicLineageBroken {
                offset,
                expected: hex::encode(record_hash),
                actual: hex::encode(computed),
            });
        }
        Ok(Self { offset, timestamp, prev_hash, record_hash, key, value })
    }

    /// Decodes like `decode`, except on bytes that `decode` does not accept:
    /// there it returns `None` and leaves `buf` as it was.
    pub fn try_decode(buf: &mut ByteReader) -> (result: Option<Result<Self, VortexError>>)
        ensures
            result is None <==> parse_record(old(buf)@) is Unparseable,
            result is None ==> final(buf)@ == old(buf)@,
            result matches Some(r) ==> decode_reports(parse_record(old(buf)@), r) && final(buf)@
                == old(buf)@.skip(record_consumed(old(buf)@) as int),
    {
        if Self::runs_past_end(buf.chunk()) {
            None
        } else {
            Some(Self::decode(buf))
        }
    }
}

/// The fields of a record that fits its encoding are read back from its payload.
#[verifier::rlimit(60)]
proof fn lemma_payload_roundtrip(r: RecordView)
    requires
        record_fits(r),
    ensures
        record_payload(r).len() == payload_len(r),
        parse_record_payload(record_payload(r)) == Some(r),
{
    reveal(parse_record_payload);
    let p = record_payload(r);
    let kf = key_field(r.key);
    let tail = be32(r.value.len() as u32) + r.value;
    lemma_be64_roundtrip(r.offset);
    lemma_be64_roundtrip(r.timestamp);
    lemma_be32_roundtrip(r.value.len() as u32);
    assert(p =~= be64(r.offset) + (be64(r.timestamp) + r.prev_hash + r.record_hash + kf + tail));
    lemma_be64_read(r.offset, be64(r.timestamp) + r.prev_hash + r.record_hash + kf + tail);
    assert(p.subrange(8, 16) =~= be64(r.timestamp));
    assert(p.subrange(16, 48) =~= r.prev_hash);
    assert(p.subrange(48, 80) =~= r.record_hash);
    match r.key {
        Some(k) => {
            let kl = k.len() as int;
            lemma_be32_roundtrip(k.len() as u32);
            assert(p.subrange(80, 84) =~= be32(k.len() as u32));
            assert(p.subrange(84, 84 + kl) =~= k);
            assert(p.subrange(84 + kl, 88 + kl) =~= be32(r.value.len() as u32));
            assert(p.subrange(88 + kl, 88 + kl + r.value.len()) =~= r.value);
        },
        None => {
            lemma_be32_roundtrip(0xFFFF_FFFFu32);
            assert(p.subrange(80, 84) =~= be32(0xFFFF_FFFF));
            assert(p.subrange(84, 88) =~= be32(r.value.len() as u32));
            assert(p.subrange(88, 88 + r.value.len() as int) =~= r.value);
        },
    }
}

/// Decoding gives back what encoding wrote: for every sealed record whose
/// lengths fit its encoding, decoding its encoding, whatever follows it,
/// yields the same record and consumes exactly the encoding.
#[verifier::rlimit(60)]
pub proof fn lemma_record_roundtrip(r: RecordView, rest: Seq<u8>)
    requires
        record_fits(r),
        r.is_sealed(),
    ensures
        encoded_record(r).len() == payload_len(r) + 8,
        from_be32(encoded_record(r) + rest) == encoded_record(r).len() - 4,
        parse_record(encoded_record(r) + rest) == RecordParse::Parsed(r),
        record_consumed(encoded_record(r) + rest) == encoded_record(r).len(),
{
    reveal(parse_record);
    lemma_payload_roundtrip(r);
    let p = record_payload(r);
    let total = ((p.len() as u32) + 4) as u32;
    let crc = crc32_checksum(p);
    let e = encoded_record(r) + rest;
    assert(total == p.len() + 4);
    assert(e =~= be32(total) + (be32(crc) + p + rest));
    lemma_be32_read(total, be32(crc) + p + rest);
    lemma_be32_roundtrip(crc);
    assert(e.subrange(4, 8) =~= be32(crc));
    assert(e.subrange(8, 4 + total) =~= p);
}

/// The encodings of a sequence start with the encoding of its first record.
pub proof fn lemma_encoded_records_front(rs: Seq<RecordView>)
    requires
        rs.len() > 0,
    ensures
        encoded_records(rs) == encoded_record(rs[0]) + encoded_records(rs.drop_first()),
    decreases rs.len(),
{
    if rs.len() == 1 {
        assert(rs.drop_last() =~= seq![]);
        assert(rs.drop_first() =~= seq![]);
        assert(encoded_records(rs) =~= encoded_record(rs[0]) + encoded_records(rs.drop_first()));
    } else {
        lemma_encoded_records_front(rs.drop_last());
        assert(rs.drop_last().drop_first() =~= rs.drop_first().drop_last());
        assert(rs.drop_first().last() == rs.last());
        assert(encoded_records(rs) =~= encoded_record(rs[0]) + encoded_records(rs.drop_first()));
    }
}

/// The encodings of two sequences, one after the other, are the encodings
/// of the sequences joined.
pub proof fn lemma_encoded_records_concat(a: Seq<RecordView>, b: Seq<RecordView>)
    ensures
        encoded_records(a + b) == encoded_records(a) + encoded_records(b),
    decreases b.len(),
{
    if b.len() == 0 {
        assert(a + b =~= a);
        assert(encoded_records(a) + encoded_records(b) =~= encoded_records(a));
    } else {
        lemma_encoded_records_concat(a, b.drop_last());
        assert((a + b).drop_last() =~= a + b.drop_last());
        assert((a + b).last() == b.last());
        assert(encoded_records(a + b) =~= encoded_records(a) + encoded_records(b));
    }
}

} // verus!

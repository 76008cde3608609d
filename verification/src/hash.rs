//! Blake3 digests that chain each record to its predecessor, and the CRC32
//! checksum that guards every encoded record and frame.

use vstd::prelude::*;
use vstd::string::*;
use crate::wire::{be32, be64, put_slice, put_u32, put_u64};

verus! {

/// 32-byte Blake3 cryptographic digest.
pub type HashDigest = [u8; 32];

/// The Blake3 digest of `input`.
pub uninterp spec fn blake3_digest(input: Seq<u8>) -> Seq<u8>;

/// The Blake3 keyed digest of `input` under `key`.
pub uninterp spec fn blake3_keyed_digest(key: Seq<u8>, input: Seq<u8>) -> Seq<u8>;

/// The CRC32 (IEEE) checksum of `data`.
pub uninterp spec fn crc32_checksum(data: Seq<u8>) -> u32;

/// `blake3::hash`: the 32-byte Blake3 digest of `input`, the same value the
/// incremental `Hasher` yields for the same bytes.
#[verifier::external_body]
fn blake3_hash(input: &[u8]) -> (out: HashDigest)
    ensures
        out@ == blake3_digest(input@),
{
    *blake3::hash(input).as_bytes()
}

/// `blake3::keyed_hash`: the keyed Blake3 digest of `input` under `key`.
#[verifier::external_body]
fn blake3_keyed_hash(key: &HashDigest, input: &[u8]) -> (out: HashDigest)
    ensures
        out@ == blake3_keyed_digest(key@, input@),
{
    *blake3::keyed_hash(key, input).as_bytes()
}

/// `crc32fast::hash`: the CRC32 checksum of `data`.
#[verifier::external_body]
pub(crate) fn crc32(data: &[u8]) -> (c: u32)
    ensures
        c == crc32_checksum(data@),
{
    crc32fast::hash(data)
}

/// The genesis anchor seed, the ASCII text `VORTEX_STREAM_GENESIS_SALT_V1.00`.
pub open spec fn genesis_salt() -> Seq<u8> {
    seq![
        86u8, 79, 82, 84, 69, 88, 95, 83, 84, 82, 69, 65, 77, 95, 71, 69,
        78, 69, 83, 73, 83, 95, 83, 65, 76, 84, 95, 86, 49, 46, 48, 48,
    ]
}

fn genesis_salt_bytes() -> (s: HashDigest)
    ensures
        s@ == genesis_salt(),
{
    let s: HashDigest = [
        86u8, 79, 82, 84, 69, 88, 95, 83, 84, 82, 69, 65, 77, 95, 71, 69,
        78, 69, 83, 73, 83, 95, 83, 65, 76, 84, 95, 86, 49, 46, 48, 48,
    ];
    assert(s@ =~= genesis_salt());
    s
}

/// The bytes hashed to root a partition: the topic's UTF-8 bytes and then
/// the partition number in big-endian order.
pub open spec fn genesis_input(topic: Seq<char>, partition: u32) -> Seq<u8> {
    vstd::utf8::encode_utf8(topic) + be32(partition)
}

/// The genesis hash of a partition.
pub open spec fn genesis_digest(topic: Seq<char>, partition: u32) -> Seq<u8> {
    blake3_keyed_digest(genesis_salt(), genesis_input(topic, partition))
}

/// The bytes that a record's hash covers: the predecessor's hash, the offset
/// and the timestamp (big-endian), the key's length and bytes (a zero length
/// when there is no key), and the value's length and bytes.
pub open spec fn record_hash_input(
    prev_hash: Seq<u8>,
    offset: u64,
    timestamp: u64,
    key: Option<Seq<u8>>,
    value: Seq<u8>,
) -> Seq<u8> {
    let key_part = match key {
        Some(k) => be32(k.len() as u32) + k,
        None => be32(0),
    };
    prev_hash + be64(offset) + be64(timestamp) + key_part + be32(value.len() as u32) + value
}

/// The hash of a record with the given fields.
pub open spec fn record_digest(
    prev_hash: Seq<u8>,
    offset: u64,
    timestamp: u64,
    key: Option<Seq<u8>>,
    value: Seq<u8>,
) -> Seq<u8> {
    blake3_digest(record_hash_input(prev_hash, offset, timestamp, key, value))
}

/// The contents of an optional byte slice.
pub open spec fn opt_bytes(key: Option<&[u8]>) -> Option<Seq<u8>> {
    match key {
        Some(k) => Some(k@),
        None => None,
    }
}

/// Computes the deterministic genesis hash for a new topic partition: the
/// Blake3 keyed hash, under the genesis salt, of the topic and the partition.
pub fn compute_genesis_hash(topic: &str, partition: u32) -> (h: HashDigest)
    ensures
        h@ == genesis_digest(topic@, partition),
{
    let mut input: Vec<u8> = Vec::new();
    put_slice(&mut input, topic.as_bytes());
    put_u32(&mut input, partition);
    let salt = genesis_salt_bytes();
    blake3_keyed_hash(&salt, input.as_slice())
}

/// Computes the hash of a record, chaining it to the previous record's hash.
pub fn compute_record_hash(
    prev_hash: &HashDigest,
    offset: u64,
    timestamp: u64,
    key: Option<&[u8]>,
    value: &[u8],
) -> (h: HashDigest)
    ensures
        h@ == record_digest(prev_hash@, offset, timestamp, opt_bytes(key), value@),
{
    let mut input: Vec<u8> = Vec::new();
    put_slice(&mut input, prev_hash.as_slice());
    put_u64(&mut input, offset);
    put_u64(&mut input, timestamp);
    match key {
        Some(k) => {
            put_u32(&mut input, k.len() as u32);
            put_slice(&mut input, k);
        },
        None => {
            put_u32(&mut input, 0);
        },
    }
    put_u32(&mut input, value.len() as u32);
    put_slice(&mut input, value);
    assert(input@ =~= record_hash_input(prev_hash@, offset, timestamp, opt_bytes(key), value@));
    blake3_hash(input.as_slice())
}

/// Whether two digests hold the same bytes.
pub fn digest_eq(a: &HashDigest, b: &HashDigest) -> (eq: bool)
    ensures
        eq == (a@ == b@),
{
    let mut i: usize = 0;
    while i < 32
        invariant
            i <= 32,
            forall|j: int| 0 <= j < i ==> a@[j] == b@[j],
        decreases 32 - i,
    {
        if a[i] != b[i] {
            return false;
        }
        i = i + 1;
    }
    assert(a@ =~= b@);
    true
}

/// Verifies whether the record's embedded hash matches the cryptographic
/// computation given the expected predecessor hash.
pub fn verify_record_integrity(
    prev_hash: &HashDigest,
    expected_hash: &HashDigest,
    offset: u64,
    timestamp: u64,
    key: Option<&[u8]>,
    value: &[u8],
) -> (ok: bool)
    ensures
        ok == (expected_hash@ == record_digest(prev_hash@, offset, timestamp, opt_bytes(key), value@)),
{
    let computed = compute_record_hash(prev_hash, offset, timestamp, key, value);
    digest_eq(&computed, expected_hash)
}

} // verus!

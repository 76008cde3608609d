use vortex::error::VortexError;
use vortex::hash::{compute_genesis_hash, compute_record_hash, digest_eq, verify_record_integrity};
use vortex::record::{Record, RECORD_HEADER_SIZE};
use vortex::wire::ByteReader;

#[test]
fn test_genesis_hash_determinism_and_uniqueness() {
    let h1 = compute_genesis_hash("orders", 0);
    let h2 = compute_genesis_hash("orders", 0);
    let h3 = compute_genesis_hash("orders", 1);
    let h4 = compute_genesis_hash("payments", 0);

    assert_eq!(h1, h2, "Genesis hash must be completely deterministic");
    assert_ne!(h1, h3, "Partitions must produce different genesis roots");
    assert_ne!(h1, h4, "Topics must produce different genesis roots");
}

#[test]
fn test_hash_chain_tamper_detection() {
    let genesis = compute_genesis_hash("audit-trail", 0);
    let payload = b"User #4092 deposited $100,000.00";
    let record_hash = compute_record_hash(&genesis, 0, 1700000000000, None, payload);

    assert!(verify_record_integrity(&genesis, &record_hash, 0, 1700000000000, None, payload));

    let tampered_payload = b"User #4092 deposited $900,000.00";
    assert!(!verify_record_integrity(
        &genesis,
        &record_hash,
        0,
        1700000000000,
        None,
        tampered_payload
    ));

    assert!(!verify_record_integrity(&genesis, &record_hash, 1, 1700000000000, None, payload));
}

#[test]
fn test_record_encode_decode_roundtrip() {
    let genesis = compute_genesis_hash("transactions", 0);
    let key = Some(b"order-9981".to_vec());
    let val = b"{\"amount\": 420.50, \"status\": \"settled\"}".to_vec();

    let record = Record::new(genesis, 0, key.clone(), val.clone());
    let encoded = record.encode();

    let mut slice = ByteReader::new(encoded);
    let decoded = Record::decode(&mut slice).expect("Decoded record must succeed");

    assert_eq!(decoded.offset, 0);
    assert_eq!(decoded.prev_hash, genesis);
    assert_eq!(decoded.record_hash, record.record_hash);
    assert_eq!(decoded.key, key);
    assert_eq!(decoded.value, val);
    assert_eq!(slice.remaining(), 0, "All bytes must be consumed");
}

#[test]
fn test_corrupted_crc_rejected() {
    let genesis = compute_genesis_hash("sensor-feed", 0);
    let record = Record::new(genesis, 10, None, b"temp=23.5".to_vec());
    let mut encoded = record.encode();

    let last_idx = encoded.len() - 1;
    encoded[last_idx] ^= 0xFF;

    let mut slice = ByteReader::new(encoded);
    let result = Record::decode(&mut slice);

    assert!(matches!(result, Err(VortexError::CorruptedRecordCrc { .. })));
}

#[test]
fn genesis_hash_is_not_its_input() {
    let h = compute_genesis_hash("orders", 0);
    let mut input = b"orders".to_vec();
    input.extend_from_slice(&0u32.to_be_bytes());
    input.resize(32, 0);
    assert_ne!(h.to_vec(), input);
    assert_ne!(h, [0u8; 32]);
}

#[test]
fn record_hash_depends_on_every_field() {
    let prev = [7u8; 32];
    let base = compute_record_hash(&prev, 3, 99, Some(b"k".as_slice()), b"v");
    assert_ne!(base, prev);
    assert_eq!(base, compute_record_hash(&prev, 3, 99, Some(b"k".as_slice()), b"v"));
    assert_ne!(base, compute_record_hash(&[8u8; 32], 3, 99, Some(b"k".as_slice()), b"v"));
    assert_ne!(base, compute_record_hash(&prev, 4, 99, Some(b"k".as_slice()), b"v"));
    assert_ne!(base, compute_record_hash(&prev, 3, 100, Some(b"k".as_slice()), b"v"));
    assert_ne!(base, compute_record_hash(&prev, 3, 99, None, b"v"));
    assert_ne!(base, compute_record_hash(&prev, 3, 99, Some(b"k".as_slice()), b"w"));
    // The hash covers an empty key and no key alike: both hash a zero length.
    assert_eq!(
        compute_record_hash(&prev, 3, 99, Some(b"".as_slice()), b"v"),
        compute_record_hash(&prev, 3, 99, None, b"v")
    );
}

#[test]
fn digest_eq_compares_bytes() {
    let a = [5u8; 32];
    let mut b = a;
    assert!(digest_eq(&a, &b));
    b[31] = 6;
    assert!(!digest_eq(&a, &b));
}

#[test]
fn record_encoding_is_exact() {
    let record = Record::with_metadata(
        7,
        1700000000000,
        [1u8; 32],
        [2u8; 32],
        Some(b"k".to_vec()),
        b"v".to_vec(),
    );
    let encoded = record.encode();
    let mut expected: Vec<u8> = Vec::new();
    expected.extend_from_slice(&94u32.to_be_bytes());
    expected.extend_from_slice(&0xe69c6c84u32.to_be_bytes());
    expected.extend_from_slice(&7u64.to_be_bytes());
    expected.extend_from_slice(&1700000000000u64.to_be_bytes());
    expected.extend_from_slice(&[1u8; 32]);
    expected.extend_from_slice(&[2u8; 32]);
    expected.extend_from_slice(&1u32.to_be_bytes());
    expected.extend_from_slice(b"k");
    expected.extend_from_slice(&1u32.to_be_bytes());
    expected.extend_from_slice(b"v");
    assert_eq!(encoded, expected);
    assert_eq!(encoded.len(), RECORD_HEADER_SIZE + 2);
}

#[test]
fn record_without_key_encodes_minus_one() {
    let record = Record::with_metadata(0, 0, [0u8; 32], [0u8; 32], None, Vec::new());
    let encoded = record.encode();
    assert_eq!(encoded.len(), RECORD_HEADER_SIZE);
    assert_eq!(&encoded[88..92], &[0xFF, 0xFF, 0xFF, 0xFF]);
    assert_eq!(&encoded[92..96], &[0, 0, 0, 0]);
}

#[test]
fn record_roundtrip_leaves_following_bytes() {
    let genesis = compute_genesis_hash("t", 1);
    let first = Record::new_at(genesis, 0, 5, None, b"a".to_vec());
    let second = Record::new_at(first.record_hash, 1, 6, Some(b"key".to_vec()), b"bb".to_vec());
    let mut bytes = first.encode();
    bytes.extend_from_slice(&second.encode());
    let mut reader = ByteReader::new(bytes);
    let a = Record::decode(&mut reader).unwrap();
    let b = Record::decode(&mut reader).unwrap();
    assert_eq!(a, first);
    assert_eq!(b, second);
    assert_eq!(b.prev_hash, a.record_hash);
    assert_eq!(reader.remaining(), 0);
}

#[test]
fn record_with_forged_hash_is_rejected() {
    let record = Record::with_metadata(7, 1, [1u8; 32], [2u8; 32], None, b"x".to_vec());
    let mut reader = ByteReader::new(record.encode());
    match Record::decode(&mut reader) {
        Err(VortexError::CryptographicLineageBroken { offset, expected, actual }) => {
            assert_eq!(offset, 7);
            assert_eq!(expected, "02".repeat(32));
            let computed = compute_record_hash(&[1u8; 32], 7, 1, None, b"x");
            assert_eq!(actual, vortex::record::hex::encode(computed));
        }
        other => panic!("unexpected {:?}", other),
    }
}

#[test]
fn record_decode_reports_underflow() {
    let mut short = ByteReader::new(vec![0, 0, 0]);
    assert_eq!(
        Record::decode(&mut short),
        Err(VortexError::BufferUnderflow { needed: 8, available: 3 })
    );
    let mut cut = ByteReader::new(vec![0, 0, 0, 20, 1, 2, 3, 4, 5]);
    assert_eq!(
        Record::decode(&mut cut),
        Err(VortexError::BufferUnderflow { needed: 20, available: 5 })
    );
}

#[test]
fn record_decode_reports_checksum_values() {
    let record = Record::with_metadata(0, 0, [0u8; 32], [0u8; 32], None, Vec::new());
    let mut encoded = record.encode();
    let good = u32::from_be_bytes([encoded[4], encoded[5], encoded[6], encoded[7]]);
    encoded[4] ^= 0x80;
    let mut reader = ByteReader::new(encoded);
    assert_eq!(
        Record::decode(&mut reader),
        Err(VortexError::CorruptedRecordCrc { offset: 0, expected: good ^ 0x8000_0000, actual: good })
    );
}

#[test]
fn hex_encodes_digests() {
    let mut d = [0u8; 32];
    d[0] = 0xAB;
    d[31] = 0x0F;
    let s = vortex::record::hex::encode(d);
    assert_eq!(s.len(), 64);
    assert!(s.starts_with("ab00"));
    assert!(s.ends_with("000f"));
    assert_eq!(vortex::cli::hex::encode([0x12u8; 32]), "12".repeat(32));
    assert_eq!(vortex::quarantine::hex::encode(&[0xde, 0xad]), "dead");
}

#[test]
fn error_texts() {
    assert_eq!(VortexError::Io("boom".to_string()).describe(), "I/O error: boom");
    assert_eq!(
        VortexError::CorruptedRecordCrc { offset: 3, expected: 0x1234, actual: 0xdeadbeef }.describe(),
        "Corrupted record CRC at offset 3: expected 0x00001234, found 0xdeadbeef"
    );
    assert_eq!(
        VortexError::CryptographicLineageBroken {
            offset: 9,
            expected: "aa".to_string(),
            actual: "bb".to_string()
        }
        .describe(),
        "Cryptographic lineage broken at offset 9: expected prev_hash aa, got bb"
    );
    assert_eq!(
        VortexError::BufferUnderflow { needed: 48, available: 2 }.describe(),
        "Buffer underflow: needed 48 bytes, only had 2"
    );
    assert_eq!(
        VortexError::InvalidMagic { expected: 0x56545831, actual: 0 }.describe(),
        "Invalid magic byte sequence: expected 0x56545831, got 0x00000000"
    );
    assert_eq!(
        VortexError::SegmentFull { current_size: 10, max_size: 5 }.describe(),
        "Segment file full: current size 10 exceeds max 5"
    );
    assert_eq!(
        VortexError::OffsetOutOfBounds { requested: 12, base_offset: 0, next_offset: 10 }.describe(),
        "Offset out of bounds: requested 12, log range is [0..10)"
    );
    assert_eq!(
        VortexError::SchemaValidationFailed { topic: "t".to_string(), reason: "r".to_string() }
            .describe(),
        "Schema validation failure for topic 't': r"
    );
    assert_eq!(
        VortexError::PoisonPillDetected { reason: "big".to_string() }.describe(),
        "Poison pill detected: big"
    );
    assert_eq!(VortexError::TopicNotFound("x".to_string()).describe(), "Topic 'x' not found");
    assert_eq!(
        VortexError::PartitionNotFound { topic: "x".to_string(), partition: 4 }.describe(),
        "Partition 4 for topic 'x' not found"
    );
}

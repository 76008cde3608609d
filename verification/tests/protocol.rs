use vortex::error::VortexError;
use vortex::frame::{Frame, MessageType, FRAME_HEADER_LEN, VTX_MAGIC};
use vortex::hash::compute_genesis_hash;
use vortex::messages::{
    CreateTopicRequest, CreateTopicResponse, ErrorResponse, FetchRequest, FetchResponse,
    ProduceRequest, ProduceResponse,
};
use vortex::record::Record;
use vortex::wire::ByteReader;

#[test]
fn test_frame_codec_roundtrip() {
    let payload = b"HELLO_VORTEX_STREAM".to_vec();
    let frame = Frame::new(MessageType::ProduceReq, 42, payload.clone());

    let encoded = frame.encode();
    let mut buf = encoded.clone();

    let decoded = Frame::decode(&mut buf).unwrap().expect("Frame decoded");
    assert_eq!(decoded.msg_type, MessageType::ProduceReq);
    assert_eq!(decoded.req_id, 42);
    assert_eq!(decoded.payload, payload);
    assert_eq!(buf.len(), 0);
}

#[test]
fn test_produce_request_response_roundtrip() {
    let req = ProduceRequest {
        topic: "financial-stream".to_string(),
        partition: 3,
        key: Some(b"k1".to_vec()),
        value: b"v1".to_vec(),
    };

    let frame = req.encode(101);
    let mut payload = ByteReader::new(frame.payload);
    let decoded = ProduceRequest::decode(&mut payload).unwrap();
    assert_eq!(req, decoded);
}

#[test]
fn test_fetch_request_roundtrip() {
    let req = FetchRequest {
        topic: "logs".to_string(),
        partition: 0,
        start_offset: 1050,
        max_bytes: 65536,
    };

    let frame = req.encode(102);
    let mut payload = ByteReader::new(frame.payload);
    let decoded = FetchRequest::decode(&mut payload).unwrap();
    assert_eq!(req, decoded);
}

#[test]
fn frame_encoding_is_exact() {
    let frame = Frame::new(MessageType::ProduceReq, 42, b"HELLO_VORTEX_STREAM".to_vec());
    let encoded = frame.encode();
    let mut expected = vec![0x56, 0x54, 0x58, 0x31, 1, 1, 0, 0, 0, 42, 0, 0, 0, 19];
    expected.extend_from_slice(&0x6305abffu32.to_be_bytes());
    expected.extend_from_slice(b"HELLO_VORTEX_STREAM");
    assert_eq!(encoded, expected);
    assert_eq!(encoded.len(), FRAME_HEADER_LEN + 19);
}

#[test]
fn frame_decode_waits_for_more_bytes() {
    let encoded = Frame::new(MessageType::FetchReq, 7, vec![1, 2, 3]).encode();
    let mut header_only = encoded[..10].to_vec();
    assert_eq!(Frame::decode(&mut header_only), Ok(None));
    assert_eq!(header_only.len(), 10);
    let mut partial = encoded[..FRAME_HEADER_LEN + 2].to_vec();
    assert_eq!(Frame::decode(&mut partial), Ok(None));
    assert_eq!(partial.len(), FRAME_HEADER_LEN + 2);
}

#[test]
fn frame_decode_takes_one_frame_at_a_time() {
    let a = Frame::new(MessageType::ProduceResp, 1, vec![9]);
    let b = Frame::new(MessageType::ErrorResp, 2, vec![]);
    let mut buf = a.encode();
    buf.extend_from_slice(&b.encode());
    buf.push(0x56);
    assert_eq!(Frame::decode(&mut buf), Ok(Some(a)));
    assert_eq!(Frame::decode(&mut buf), Ok(Some(b)));
    assert_eq!(buf, vec![0x56]);
}

#[test]
fn frame_decode_rejects_bad_magic() {
    let mut buf = Frame::new(MessageType::FetchReq, 7, vec![]).encode();
    buf[0] = 0;
    assert_eq!(
        Frame::decode(&mut buf),
        Err(VortexError::InvalidMagic { expected: VTX_MAGIC, actual: 0x00545831 })
    );
}

#[test]
fn frame_decode_rejects_unknown_type() {
    let mut buf = Frame::new(MessageType::FetchReq, 7, vec![]).encode();
    buf[5] = 42;
    assert_eq!(
        Frame::decode(&mut buf),
        Err(VortexError::Io("Unknown message type: 42".to_string()))
    );
}

#[test]
fn frame_decode_rejects_bad_checksum() {
    let mut buf = Frame::new(MessageType::FetchReq, 7, b"123456789".to_vec()).encode();
    buf[14] ^= 1;
    assert_eq!(
        Frame::decode(&mut buf),
        Err(VortexError::CorruptedRecordCrc {
            offset: 0,
            expected: 0xcbf43926 ^ 0x0100_0000,
            actual: 0xcbf43926
        })
    );
    assert!(buf.is_empty());
}

#[test]
fn message_type_codes() {
    let all = [
        MessageType::ProduceReq,
        MessageType::ProduceResp,
        MessageType::FetchReq,
        MessageType::FetchResp,
        MessageType::CreateTopicReq,
        MessageType::CreateTopicResp,
        MessageType::MetadataReq,
        MessageType::MetadataResp,
        MessageType::ErrorResp,
    ];
    for (i, m) in all.iter().enumerate() {
        assert_eq!(m.code() as usize, i + 1);
        assert_eq!(MessageType::try_from((i + 1) as u8), Ok(*m));
        assert_eq!(MessageType::from_code((i + 1) as u8), Ok(*m));
    }
    assert_eq!(
        MessageType::try_from(0u8),
        Err(VortexError::Io("Unknown message type: 0".to_string()))
    );
    assert_eq!(
        MessageType::from_code(200),
        Err(VortexError::Io("Unknown message type: 200".to_string()))
    );
}

#[test]
fn produce_request_without_key_roundtrips() {
    let req = ProduceRequest {
        topic: "t".to_string(),
        partition: 9,
        key: None,
        value: vec![],
    };
    let frame = req.encode(5);
    assert_eq!(frame.msg_type, MessageType::ProduceReq);
    assert_eq!(frame.req_id, 5);
    assert_eq!(frame.payload, vec![0, 1, b't', 0, 0, 0, 9, 0xFF, 0xFF, 0xFF, 0xFF, 0, 0, 0, 0]);
    let mut p = ByteReader::new(frame.payload);
    assert_eq!(ProduceRequest::decode(&mut p), Ok(req));
    assert_eq!(p.remaining(), 0);
}

#[test]
fn produce_request_underflow() {
    let mut p = ByteReader::new(vec![0]);
    assert_eq!(
        ProduceRequest::decode(&mut p),
        Err(VortexError::BufferUnderflow { needed: 2, available: 1 })
    );
    let mut p = ByteReader::new(vec![0, 5, b'a']);
    assert_eq!(
        ProduceRequest::decode(&mut p),
        Err(VortexError::BufferUnderflow { needed: 17, available: 1 })
    );
}

#[test]
fn produce_request_bad_topic_utf8() {
    let payload = vec![0, 1, 0xFF, 0, 0, 0, 0, 0xFF, 0xFF, 0xFF, 0xFF, 0, 0, 0, 0];
    let mut p = ByteReader::new(payload);
    let expected = String::from_utf8(vec![0xFF]).unwrap_err().to_string();
    assert_eq!(ProduceRequest::decode(&mut p), Err(VortexError::Io(expected)));
}

#[test]
fn produce_response_roundtrip_and_underflow() {
    let resp = ProduceResponse { offset: 12, timestamp: 34, record_hash: [9u8; 32] };
    let frame = resp.encode(3);
    assert_eq!(frame.msg_type, MessageType::ProduceResp);
    assert_eq!(frame.payload.len(), 48);
    let mut p = ByteReader::new(frame.payload);
    assert_eq!(ProduceResponse::decode(&mut p), Ok(resp));
    let mut short = ByteReader::new(vec![0; 47]);
    assert_eq!(
        ProduceResponse::decode(&mut short),
        Err(VortexError::BufferUnderflow { needed: 48, available: 47 })
    );
}

#[test]
fn fetch_request_underflow() {
    let mut p = ByteReader::new(vec![0, 4, b'l', b'o', b'g', b's', 0]);
    assert_eq!(
        FetchRequest::decode(&mut p),
        Err(VortexError::BufferUnderflow { needed: 20, available: 5 })
    );
}

#[test]
fn fetch_response_roundtrip() {
    let genesis = compute_genesis_hash("logs", 0);
    let r0 = Record::new_at(genesis, 0, 10, None, b"a".to_vec());
    let r1 = Record::new_at(r0.record_hash, 1, 11, Some(b"k".to_vec()), b"bc".to_vec());
    let resp = FetchResponse { records: vec![r0, r1] };
    let frame = resp.encode(8);
    assert_eq!(frame.msg_type, MessageType::FetchResp);
    assert_eq!(&frame.payload[..4], &[0, 0, 0, 2]);
    let mut p = ByteReader::new(frame.payload);
    assert_eq!(FetchResponse::decode(&mut p), Ok(resp));
    assert_eq!(p.remaining(), 0);
}

#[test]
fn fetch_response_reports_record_errors() {
    let genesis = compute_genesis_hash("logs", 0);
    let r0 = Record::new_at(genesis, 0, 10, None, b"a".to_vec());
    let mut payload = FetchResponse { records: vec![r0] }.encode(8).payload;
    let n = payload.len();
    payload[n - 1] ^= 0xFF;
    let mut p = ByteReader::new(payload);
    assert!(matches!(
        FetchResponse::decode(&mut p),
        Err(VortexError::CorruptedRecordCrc { .. })
    ));
    let mut empty = ByteReader::new(vec![0, 0]);
    assert_eq!(
        FetchResponse::decode(&mut empty),
        Err(VortexError::BufferUnderflow { needed: 4, available: 2 })
    );
}

#[test]
fn create_topic_roundtrip() {
    let req = CreateTopicRequest { topic: "orders".to_string(), partitions: 4 };
    let frame = req.encode(11);
    assert_eq!(frame.msg_type, MessageType::CreateTopicReq);
    let mut p = ByteReader::new(frame.payload);
    assert_eq!(CreateTopicRequest::decode(&mut p), Ok(req));
    let mut short = ByteReader::new(vec![0]);
    assert_eq!(CreateTopicRequest::try_decode(&mut short), None);

    let resp = CreateTopicResponse { success: true };
    let frame = resp.encode(11);
    assert_eq!(frame.payload, vec![1]);
    let mut p = ByteReader::new(frame.payload);
    assert_eq!(CreateTopicResponse::decode(&mut p), Ok(resp));
    let mut p = ByteReader::new(vec![2]);
    assert_eq!(CreateTopicResponse::decode(&mut p), Ok(CreateTopicResponse { success: false }));
    let mut none = ByteReader::new(vec![]);
    assert_eq!(CreateTopicResponse::try_decode(&mut none), None);
}

#[test]
fn error_response_roundtrip() {
    let err = ErrorResponse { code: 405, message: "Unsupported message type".to_string() };
    let frame = err.encode(77);
    assert_eq!(frame.msg_type, MessageType::ErrorResp);
    assert_eq!(&frame.payload[..4], &[1, 149, 0, 24]);
    let mut p = ByteReader::new(frame.payload);
    assert_eq!(ErrorResponse::decode(&mut p), Ok(err));
    let mut short = ByteReader::new(vec![1, 149, 0]);
    assert_eq!(ErrorResponse::try_decode(&mut short), None);
}

#[test]
fn records_are_encodable() {
    let r = Record::with_metadata(0, 0, [0u8; 32], [0u8; 32], Some(vec![1, 2]), vec![3; 10]);
    assert!(r.is_encodable());
    let resp = FetchResponse { records: vec![r.clone(), r] };
    assert!(resp.is_encodable());
    assert!(FetchResponse { records: vec![] }.is_encodable());
}

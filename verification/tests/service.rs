use vortex::cli::{check_reply, percentile_index, reports_progress, ChainAudit};
use vortex::engine::{
    error_frame, error_reply, failure_reply, malformed_reply, quarantine_topic, route, screen, Admission,
    RequestKind, Route,
};
use vortex::error::VortexError;
use vortex::frame::{Frame, MessageType};
use vortex::hash::compute_genesis_hash;
use vortex::messages::{
    CreateTopicRequest, ErrorResponse, FetchRequest, ProduceRequest, ProduceResponse,
};
use vortex::record::Record;
use vortex::validator::{IngressValidator, ValidationConfig};
use vortex::wire::ByteReader;

fn error_of(frame: &Frame) -> ErrorResponse {
    assert_eq!(frame.msg_type, MessageType::ErrorResp);
    let mut p = ByteReader::new(frame.payload.clone());
    ErrorResponse::decode(&mut p).unwrap()
}

#[test]
fn route_decodes_requests() {
    let req = ProduceRequest {
        topic: "orders".to_string(),
        partition: 1,
        key: Some(b"k".to_vec()),
        value: b"v".to_vec(),
    };
    match route(req.encode(5)) {
        Some(Route::Produce { req_id, request }) => {
            assert_eq!(req_id, 5);
            assert_eq!(request, req);
        }
        _ => panic!("expected a produce route"),
    }
    let fetch = FetchRequest { topic: "orders".to_string(), partition: 0, start_offset: 3, max_bytes: 10 };
    assert!(matches!(
        route(fetch.encode(6)),
        Some(Route::Fetch { req_id: 6, ref request }) if *request == fetch
    ));
    let create = CreateTopicRequest { topic: "orders".to_string(), partitions: 2 };
    assert!(matches!(
        route(create.encode(7)),
        Some(Route::CreateTopic { req_id: 7, ref request }) if *request == create
    ));
}

#[test]
fn route_answers_malformed_and_unsupported() {
    let bad = Frame::new(MessageType::FetchReq, 9, vec![0]);
    match route(bad) {
        Some(Route::Malformed { req_id, context, error }) => {
            assert_eq!(req_id, 9);
            assert_eq!(context, "Malformed fetch payload: ");
            assert_eq!(error, VortexError::BufferUnderflow { needed: 2, available: 1 });
            let reply = error_reply(req_id, 400, &context, &error);
            let e = error_of(&reply);
            assert_eq!(e.code, 400);
            assert_eq!(e.message, "Malformed fetch payload: Buffer underflow: needed 2 bytes, only had 1");
        }
        _ => panic!("expected a malformed route"),
    }
    let bad_produce = Frame::new(MessageType::ProduceReq, 10, vec![0, 3, b'a']);
    assert!(matches!(
        route(bad_produce),
        Some(Route::Malformed { req_id: 10, ref context, .. }) if context == "Malformed produce payload: "
    ));
    match route(Frame::new(MessageType::MetadataReq, 11, vec![])) {
        Some(Route::Reply(f)) => {
            assert_eq!(f.req_id, 11);
            let e = error_of(&f);
            assert_eq!(e.code, 405);
            assert_eq!(e.message, "Unsupported message type");
        }
        _ => panic!("expected a reply"),
    }
    // A create-topic payload too short for its fields cannot be served.
    assert!(route(Frame::new(MessageType::CreateTopicReq, 12, vec![0])).is_none());
}

#[test]
fn error_frames() {
    let f = error_frame(3, 500, "disk full".to_string());
    assert_eq!(f.req_id, 3);
    let e = error_of(&f);
    assert_eq!(e, ErrorResponse { code: 500, message: "disk full".to_string() });
    assert_eq!(quarantine_topic("orders"), "orders.__quarantine");
}

#[test]
fn screening_produce_requests() {
    let validator = IngressValidator::new(ValidationConfig { max_message_size: 8, ..Default::default() });
    let ok = ProduceRequest { topic: "t".to_string(), partition: 0, key: None, value: b"small".to_vec() };
    assert!(matches!(screen(&validator, &ok), Admission::Accepted));

    let big = ProduceRequest {
        topic: "t".to_string(),
        partition: 0,
        key: Some(vec![0xAB]),
        value: b"too large".to_vec(),
    };
    match screen(&validator, &big) {
        Admission::Rejected { quarantine_topic, event, error } => {
            assert_eq!(quarantine_topic, "t.__quarantine");
            assert_eq!(
                error,
                VortexError::PoisonPillDetected {
                    reason: "Message size (10 bytes) exceeds topic limit of 8 bytes".to_string()
                }
            );
            assert_eq!(
                event.reason,
                "Poison pill detected: Message size (10 bytes) exceeds topic limit of 8 bytes"
            );
            assert_eq!(event.topic, "t");
            assert_eq!(event.key_hex, Some("0xab".to_string()));
            assert_eq!(event.payload_preview, "too large");
        }
        Admission::Accepted => panic!("expected a rejection"),
    }
}

#[test]
fn client_reads_replies() {
    let resp = ProduceResponse { offset: 1, timestamp: 2, record_hash: [0u8; 32] }.encode(4);
    assert_eq!(check_reply(resp.clone()), Some(Ok(resp)));
    let err = ErrorResponse { code: 404, message: "nope".to_string() }.encode(4);
    assert_eq!(
        check_reply(err),
        Some(Err(VortexError::Io("Server error [404]: nope".to_string())))
    );
    let broken = Frame::new(MessageType::ErrorResp, 4, vec![0, 1, 0, 1, 0xFF]);
    let utf8 = String::from_utf8(vec![0xFF]).unwrap_err().to_string();
    assert_eq!(check_reply(broken), Some(Err(VortexError::Io(utf8))));
    assert_eq!(check_reply(Frame::new(MessageType::ErrorResp, 4, vec![0])), None);
}

fn chain(n: u64) -> Vec<Record> {
    let mut prev = compute_genesis_hash("bench", 0);
    let mut out = Vec::new();
    for i in 0..n {
        let r = Record::new_at(prev, i, i, None, vec![b'X'; 4]);
        prev = r.record_hash;
        out.push(r);
    }
    out
}

#[test]
fn audit_passes_unbroken_chain() {
    let records = chain(6);
    let mut audit = ChainAudit::new();
    audit.absorb(&records[..4].to_vec());
    assert!(audit.passed);
    assert_eq!(audit.current_offset, 4);
    audit.absorb(&records[4..].to_vec());
    assert!(audit.passed);
    assert_eq!(audit.fetched_count, 6);
    assert_eq!(audit.current_offset, 6);
    assert_eq!(audit.prev_hash, Some(records[5].record_hash));
    assert_eq!(audit.broken_at, None);
}

#[test]
fn audit_stops_at_broken_link() {
    let mut records = chain(5);
    records[3] = Record::new_at([0u8; 32], 3, 3, None, vec![b'X'; 4]);
    let mut audit = ChainAudit::new();
    audit.absorb(&records);
    assert!(!audit.passed);
    assert_eq!(audit.broken_at, Some(3));
    assert_eq!(audit.fetched_count, 3);
    assert_eq!(audit.current_offset, 3);
}

#[test]
fn benchmark_arithmetic() {
    assert_eq!(percentile_index(1000, 50), 500);
    assert_eq!(percentile_index(1000, 95), 950);
    assert_eq!(percentile_index(7, 99), 6);
    assert!(reports_progress(199, 1000));
    assert!(!reports_progress(200, 1000));
    assert!(reports_progress(999, 1000));
    assert!(reports_progress(0, 3));
    assert!(reports_progress(2, 3));
}

#[test]
fn failure_replies_carry_codes() {
    let e = VortexError::TopicNotFound("x".to_string());
    let f = failure_reply(1, RequestKind::Produce, &e);
    assert_eq!(error_of(&f), ErrorResponse { code: 400, message: "Topic 'x' not found".to_string() });
    let f = failure_reply(2, RequestKind::Fetch, &e);
    assert_eq!(error_of(&f).code, 400);
    let f = failure_reply(3, RequestKind::CreateTopic, &e);
    assert_eq!(error_of(&f).code, 500);
    assert_eq!(f.req_id, 3);
    let m = malformed_reply(4, "Malformed produce payload: ", &VortexError::BufferUnderflow { needed: 2, available: 0 });
    assert_eq!(
        error_of(&m),
        ErrorResponse {
            code: 400,
            message: "Malformed produce payload: Buffer underflow: needed 2 bytes, only had 0".to_string()
        }
    );
}

#[test]
fn audit_fetch_steps() {
    let records = chain(4);
    let mut audit = ChainAudit::new();
    assert_eq!(audit.next_fetch(4), Some(0));
    audit.absorb(&records[..2].to_vec());
    assert_eq!(audit.next_fetch(4), Some(2));
    audit.absorb(&records[2..].to_vec());
    assert_eq!(audit.next_fetch(4), None);
    assert!(audit.complete(4));

    let mut short = ChainAudit::new();
    short.absorb(&records[..1].to_vec());
    short.absorb(&Vec::new());
    assert!(short.exhausted);
    assert_eq!(short.next_fetch(4), None);
    assert!(!short.complete(4));
}

use vortex::error::VortexError;
use vortex::quarantine::QuarantinedEvent;
use vortex::validator::{IngressValidator, ValidationConfig, DEFAULT_MAX_MESSAGE_SIZE};

#[test]
fn test_oversize_message_quarantined() {
    let config = ValidationConfig {
        max_message_size: 100,
        ..Default::default()
    };
    let validator = IngressValidator::new(config);

    let valid_payload = vec![0u8; 50];
    assert!(validator.validate("events", None, &valid_payload).is_ok());

    let toxic_payload = vec![0u8; 150];
    let err = validator.validate("events", None, &toxic_payload);
    assert!(matches!(err, Err(VortexError::PoisonPillDetected { .. })));
}

#[test]
fn test_json_poison_pill_blocked() {
    let config = ValidationConfig {
        enforce_utf8_json: true,
        ..Default::default()
    };
    let validator = IngressValidator::new(config);

    let good_json = b"{\"user_id\": 102, \"action\": \"login\"}";
    assert!(validator.validate("auth-events", None, good_json).is_ok());

    let broken_json = b"{\"user_id\": 102, \"action\": unquoted_garbage}";
    let err = validator.validate("auth-events", None, broken_json);
    assert!(matches!(err, Err(VortexError::SchemaValidationFailed { .. })));
}

#[test]
fn default_config() {
    let c = ValidationConfig::default();
    assert_eq!(c.max_message_size, DEFAULT_MAX_MESSAGE_SIZE);
    assert_eq!(DEFAULT_MAX_MESSAGE_SIZE, 10 * 1024 * 1024);
    assert!(!c.enforce_utf8_json);
    assert!(!c.reject_empty_payload);
}

#[test]
fn oversize_counts_key_and_value() {
    let validator = IngressValidator::new(ValidationConfig { max_message_size: 10, ..Default::default() });
    assert_eq!(validator.validate("t", Some(b"12345".as_slice()), b"12345"), Ok(()));
    assert_eq!(
        validator.validate("t", Some(b"123456".as_slice()), b"12345"),
        Err(VortexError::PoisonPillDetected {
            reason: "Message size (11 bytes) exceeds topic limit of 10 bytes".to_string()
        })
    );
}

#[test]
fn empty_payload_policy() {
    let strict = IngressValidator::new(ValidationConfig { reject_empty_payload: true, ..Default::default() });
    assert_eq!(
        strict.validate("t", Some(b"k".as_slice()), b""),
        Err(VortexError::PoisonPillDetected {
            reason: "Empty payload rejected by topic policy".to_string()
        })
    );
    let lax = IngressValidator::new(ValidationConfig::default());
    assert_eq!(lax.validate("t", None, b""), Ok(()));
}

#[test]
fn json_checks_in_order() {
    let v = IngressValidator::new(ValidationConfig { enforce_utf8_json: true, ..Default::default() });
    assert_eq!(
        v.validate("auth", None, &[0xFF, 0xFE]),
        Err(VortexError::SchemaValidationFailed {
            topic: "auth".to_string(),
            reason: "Payload is not valid UTF-8 JSON".to_string()
        })
    );
    assert_eq!(
        v.validate("auth", None, b"\"just a string\""),
        Err(VortexError::SchemaValidationFailed {
            topic: "auth".to_string(),
            reason: "Malformed JSON structure: root must be an object or array".to_string()
        })
    );
    assert_eq!(
        v.validate("auth", None, b"[1, 2,]"),
        Err(VortexError::SchemaValidationFailed {
            topic: "auth".to_string(),
            reason: "Syntax error in JSON payload (poison pill prevented)".to_string()
        })
    );
    assert_eq!(v.validate("auth", None, b"  \n[1, 2, {\"a\": null}]\t "), Ok(()));
    assert_eq!(v.validate("auth", None, b""), Err(VortexError::SchemaValidationFailed {
        topic: "auth".to_string(),
        reason: "Malformed JSON structure: root must be an object or array".to_string()
    }));
}

#[test]
fn quarantined_event_fields() {
    let e = QuarantinedEvent::new_at("orders", "too big", Some(&[0x0au8, 0xff][..]), b"hello", 1234);
    assert_eq!(e.topic, "orders");
    assert_eq!(e.reason, "too big");
    assert_eq!(e.timestamp, 1234);
    assert_eq!(e.key_hex, Some("0x0aff".to_string()));
    assert_eq!(e.payload_preview, "hello");

    let no_key = QuarantinedEvent::new("orders", "r", None, &[0x66, 0xFF, 0x6f]);
    assert_eq!(no_key.key_hex, None);
    assert_eq!(no_key.payload_preview, "f\u{FFFD}o");
}

#[test]
fn quarantined_preview_is_cut() {
    let value = vec![b'x'; 300];
    let e = QuarantinedEvent::new_at("t", "r", None, &value, 0);
    assert_eq!(e.payload_preview, "x".repeat(128));
    let short = QuarantinedEvent::new_at("t", "r", Some(&[][..]), b"", 0);
    assert_eq!(short.payload_preview, "");
    assert_eq!(short.key_hex, Some("0x".to_string()));
}

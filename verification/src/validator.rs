//! Ingress validation: the checks a message passes at the wire boundary
//! before it touches storage.

use vstd::prelude::*;
use vstd::string::*;
use vstd::utf8::{decode_utf8, valid_utf8};
use crate::error::VortexError;
use crate::hash::opt_bytes;
use crate::text::{decimal_string, decimal_text, trim_whitespace, trimmed, utf8_str};

verus! {

/// 10 MB
pub const DEFAULT_MAX_MESSAGE_SIZE: usize = 10 * 1024 * 1024;

/// The checks a topic applies to incoming messages.
#[derive(Debug, Clone)]
pub struct ValidationConfig {
    pub max_message_size: usize,
    pub enforce_utf8_json: bool,
    pub reject_empty_payload: bool,
}

impl Default for ValidationConfig {
    fn default() -> (c: Self)
        ensures
            c.max_message_size == DEFAULT_MAX_MESSAGE_SIZE,
            !c.enforce_utf8_json,
            !c.reject_empty_payload,
    {
        Self {
            max_message_size: DEFAULT_MAX_MESSAGE_SIZE,
            enforce_utf8_json: false,
            reject_empty_payload: false,
        }
    }
}

/// Whether `serde_json` parses `text` into a JSON value.
pub uninterp spec fn json_text_is_valid(text: Seq<char>) -> bool;

/// `serde_json::from_str::<serde_json::Value>` succeeds on `text`. Whether it
/// does is left to `json_text_is_valid`.
#[verifier::external_body]
fn json_parses(text: &str) -> (ok: bool)
    ensures
        ok == json_text_is_valid(text@),
{
    serde_json::from_str::<serde_json::Value>(text).is_ok()
}

/// Why a message is turned away, or that it is accepted.
pub enum Verdict {
    Accepted,
    Oversized { total: nat, limit: nat },
    EmptyPayload,
    NotUtf8,
    NotJsonContainer,
    JsonSyntax,
}

/// The text starts with `open` and ends with `close`.
pub open spec fn wrapped_in(t: Seq<char>, open: char, close: char) -> bool {
    t.len() > 0 && t[0] == open && t[t.len() - 1] == close
}

/// What validation decides for a message with this key and value.
pub open spec fn verdict(config: ValidationConfig, key: Option<Seq<u8>>, value: Seq<u8>) -> Verdict {
    let total = match key {
        Some(k) => k.len(),
        None => 0,
    } + value.len();
    if total > config.max_message_size {
        Verdict::Oversized { total, limit: config.max_message_size as nat }
    } else if config.reject_empty_payload && value.len() == 0 {
        Verdict::EmptyPayload
    } else if config.enforce_utf8_json {
        if !valid_utf8(value) {
            Verdict::NotUtf8
        } else {
            let t = trimmed(decode_utf8(value));
            if !wrapped_in(t, '{', '}') && !wrapped_in(t, '[', ']') {
                Verdict::NotJsonContainer
            } else if !json_text_is_valid(t) {
                Verdict::JsonSyntax
            } else {
                Verdict::Accepted
            }
        }
    } else {
        Verdict::Accepted
    }
}

/// The error that reports a verdict for `topic`.
pub open spec fn reports_verdict(v: Verdict, topic: Seq<char>, result: Result<(), VortexError>) -> bool {
    match (v, result) {
        (Verdict::Accepted, Ok(())) => true,
        (Verdict::Oversized { total, limit }, Err(VortexError::PoisonPillDetected { reason })) =>
            reason@ == "Message size ("@ + decimal_text(total) + " bytes) exceeds topic limit of "@
                + decimal_text(limit) + " bytes"@,
        (Verdict::EmptyPayload, Err(VortexError::PoisonPillDetected { reason })) => reason@
            == "Empty payload rejected by topic policy"@,
        (Verdict::NotUtf8, Err(VortexError::SchemaValidationFailed { topic: t, reason })) => t@
            == topic && reason@ == "Payload is not valid UTF-8 JSON"@,
        (Verdict::NotJsonContainer, Err(VortexError::SchemaValidationFailed { topic: t, reason })) =>
            t@ == topic && reason@ == "Malformed JSON structure: root must be an object or array"@,
        (Verdict::JsonSyntax, Err(VortexError::SchemaValidationFailed { topic: t, reason })) => t@
            == topic && reason@ == "Syntax error in JSON payload (poison pill prevented)"@,
        _ => false,
    }
}

/// The size limit comes first and holds on every topic: whatever the config's
/// other checks, a message whose key and value together are longer than
/// `max_message_size` is refused as a poison pill that names its size and
/// the limit, and validation reports exactly that.
pub proof fn lemma_oversize_always_refused(
    config: ValidationConfig,
    key: Option<Seq<u8>>,
    value: Seq<u8>,
    topic: Seq<char>,
    result: Result<(), VortexError>,
)
    requires
        ({
            let key_len: int = match key {
                Some(k) => k.len() as int,
                None => 0int,
            };
            key_len + value.len() > config.max_message_size
        }),
        reports_verdict(verdict(config, key, value), topic, result),
    ensures
        ({
            let key_len: int = match key {
                Some(k) => k.len() as int,
                None => 0int,
            };
            let total = (key_len + value.len()) as nat;
            &&& verdict(config, key, value) == (Verdict::Oversized { total, limit: config.max_message_size as nat })
            &&& result matches Err(VortexError::PoisonPillDetected { reason }) && reason@ == "Message size ("@
                + decimal_text(total) + " bytes) exceeds topic limit of "@ + decimal_text(
                config.max_message_size as nat,
            ) + " bytes"@
        }),
{
}

/// A message within the size limit is never refused as oversized.
pub proof fn lemma_within_size_not_oversized(config: ValidationConfig, key: Option<Seq<u8>>, value: Seq<u8>)
    requires
        ({
            let key_len: int = match key {
                Some(k) => k.len() as int,
                None => 0int,
            };
            key_len + value.len() <= config.max_message_size
        }),
    ensures
        !(verdict(config, key, value) is Oversized),
{
}

/// Checks messages against a topic's validation config.
pub struct IngressValidator {
    config: ValidationConfig,
}

fn wrapped(t: &str, open: char, close: char) -> (r: bool)
    ensures
        r == wrapped_in(t@, open, close),
{
    let n = t.unicode_len();
    n > 0 && t.get_char(0) == open && t.get_char(n - 1) == close
}

impl IngressValidator {
    /// The config this validator applies.
    pub closed spec fn config(&self) -> ValidationConfig {
        self.config
    }

    pub fn new(config: ValidationConfig) -> (v: Self)
        ensures
            v.config() == config,
    {
        Self { config }
    }

    /// Validates an incoming message at the wire boundary before it touches
    /// storage: oversized messages and, where configured, empty payloads are
    /// rejected as poison pills, and payloads that are not a JSON object or
    /// array as schema failures.
    pub fn validate(&self, topic: &str, key: Option<&[u8]>, value: &[u8]) -> (result: Result<
        (),
        VortexError,
    >)
        requires
            match key {
                Some(k) => k@.len(),
                None => 0,
            } + value@.len() <= usize::MAX,
        ensures
            reports_verdict(verdict(self.config(), opt_bytes(key), value@), topic@, result),
    {
        let key_len: usize = match key {
            Some(k) => k.len(),
            None => 0,
        };
        let total_size = key_len + value.len();

        if total_size > self.config.max_message_size {
            let mut reason = String::from_str("Message size (");
            let total_text = decimal_string(total_size as u64);
            reason.append(total_text.as_str());
            reason.append(" bytes) exceeds topic limit of ");
            let limit_text = decimal_string(self.config.max_message_size as u64);
            reason.append(limit_text.as_str());
            reason.append(" bytes");
            return Err(VortexError::PoisonPillDetected { reason });
        }

        if self.config.reject_empty_payload && value.len() == 0 {
            return Err(VortexError::PoisonPillDetected {
                reason: String::from_str("Empty payload rejected by topic policy"),
            });
        }

        if self.config.enforce_utf8_json {
            let json_str = match utf8_str(value) {
                Some(s) => s,
                None => {
                    return Err(VortexError::SchemaValidationFailed {
                        topic: String::from_str(topic),
                        reason: String::from_str("Payload is not valid UTF-8 JSON"),
                    });
                },
            };
            let trimmed_str = trim_whitespace(json_str);
            let is_object = wrapped(trimmed_str, '{', '}');
            let is_array = wrapped(trimmed_str, '[', ']');
            if !is_object && !is_array {
                return Err(VortexError::SchemaValidationFailed {
                    topic: String::from_str(topic),
                    reason: String::from_str(
                        "Malformed JSON structure: root must be an object or array",
                    ),
                });
            }
            if !json_parses(trimmed_str) {
                return Err(VortexError::SchemaValidationFailed {
                    topic: String::from_str(topic),
                    reason: String::from_str("Syntax error in JSON payload (poison pill prevented)"),
                });
            }
        }
        Ok(())
    }
}

} // verus!

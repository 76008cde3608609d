//! Events turned away at ingress, kept for inspection in a quarantine topic.

pub mod hex;

use vstd::prelude::*;
use vstd::string::*;
use crate::text::{hex_text, utf8_lossy, utf8_lossy_text};
use crate::hash::opt_bytes;

verus! {

/// A rejected event: where it was headed, when, why, and a readable excerpt.
#[derive(Debug, Clone)]
pub struct QuarantinedEvent {
    pub topic: String,
    pub timestamp: u64,
    pub reason: String,
    pub key_hex: Option<String>,
    pub payload_preview: String,
}

/// At most this many bytes of a payload are kept as its preview.
pub const PREVIEW_BYTES: usize = 128;

/// The key, written as `0x` and its bytes in lowercase hexadecimal.
pub open spec fn key_hex_text(key: Seq<u8>) -> Seq<char> {
    "0x"@ + hex_text(key)
}

/// The key's rendering is present exactly when there is a key, and is its
/// hexadecimal text.
pub open spec fn key_hex_of(key_hex: Option<String>, key: Option<Seq<u8>>) -> bool {
    match (key_hex, key) {
        (Some(h), Some(k)) => h@ == key_hex_text(k),
        (None, None) => true,
        _ => false,
    }
}

/// The preview of a payload: its first 128 bytes read as UTF-8, with
/// invalid sequences replaced.
pub open spec fn preview_text(value: Seq<u8>) -> Seq<char> {
    utf8_lossy_text(value.take(if value.len() < 128 { value.len() as int } else { 128 }))
}

impl QuarantinedEvent {
    /// Records a rejected event, stamped with the current time.
    pub fn new(topic: &str, reason: &str, key: Option<&[u8]>, value: &[u8]) -> (e: Self)
        ensures
            e.topic@ == topic@,
            e.reason@ == reason@,
            key_hex_of(e.key_hex, opt_bytes(key)),
            e.payload_preview@ == preview_text(value@),
    {
        let timestamp = crate::clock::unix_millis_now();
        Self::new_at(topic, reason, key, value, timestamp)
    }

    /// Records a rejected event with the given timestamp.
    pub fn new_at(topic: &str, reason: &str, key: Option<&[u8]>, value: &[u8], timestamp: u64) -> (e:
        Self)
        ensures
            e.topic@ == topic@,
            e.reason@ == reason@,
            e.timestamp == timestamp,
            key_hex_of(e.key_hex, opt_bytes(key)),
            e.payload_preview@ == preview_text(value@),
    {
        let key_hex = match key {
            Some(k) => {
                let mut h = String::from_str("0x");
                let digits = hex::encode(k);
                h.append(digits.as_str());
                Some(h)
            },
            None => None,
        };
        let preview_len = if value.len() < PREVIEW_BYTES {
            value.len()
        } else {
            PREVIEW_BYTES
        };
        let preview = vstd::slice::slice_subrange(value, 0, preview_len);
        let payload_preview = utf8_lossy(preview);
        assert(preview@ =~= value@.take(preview_len as int));
        Self {
            topic: String::from_str(topic),
            timestamp,
            reason: String::from_str(reason),
            key_hex,
            payload_preview,
        }
    }
}

} // verus!

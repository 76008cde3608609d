//! The error type shared by every part of the library, and the text that
//! reports each error.

use vstd::prelude::*;
use vstd::string::*;
use crate::text::{decimal_string, decimal_text, hex_string, hex_text};
use crate::wire::{be32, put_u32};

verus! {

/// What can go wrong while encoding, decoding, validating or storing events.
#[derive(Debug, Clone, PartialEq, Eq)]
#[allow(inconsistent_fields)]
pub enum VortexError {
    Io(String),
    CorruptedRecordCrc { offset: u64, expected: u32, actual: u32 },
    CryptographicLineageBroken { offset: u64, expected: String, actual: String },
    BufferUnderflow { needed: usize, available: usize },
    InvalidMagic { expected: u32, actual: u32 },
    SegmentFull { current_size: u64, max_size: u64 },
    OffsetOutOfBounds { requested: u64, base_offset: u64, next_offset: u64 },
    SchemaValidationFailed { topic: String, reason: String },
    PoisonPillDetected { reason: String },
    TopicNotFound(String),
    PartitionNotFound { topic: String, partition: u32 },
}

/// A 32-bit word as `0x` and eight lowercase hexadecimal digits.
pub open spec fn word_hex_text(v: u32) -> Seq<char> {
    "0x"@ + hex_text(be32(v))
}

/// The text that reports an error.
pub open spec fn error_text(e: VortexError) -> Seq<char> {
    match e {
        VortexError::Io(m) => "I/O error: "@ + m@,
        VortexError::CorruptedRecordCrc { offset, expected, actual } => "Corrupted record CRC at offset "@
            + decimal_text(offset as nat) + ": expected "@ + word_hex_text(expected) + ", found "@
            + word_hex_text(actual),
        VortexError::CryptographicLineageBroken { offset, expected, actual } =>
            "Cryptographic lineage broken at offset "@ + decimal_text(offset as nat)
                + ": expected prev_hash "@ + expected@ + ", got "@ + actual@,
        VortexError::BufferUnderflow { needed, available } => "Buffer underflow: needed "@
            + decimal_text(needed as nat) + " bytes, only had "@ + decimal_text(available as nat),
        VortexError::InvalidMagic { expected, actual } => "Invalid magic byte sequence: expected "@
            + word_hex_text(expected) + ", got "@ + word_hex_text(actual),
        VortexError::SegmentFull { current_size, max_size } => "Segment file full: current size "@
            + decimal_text(current_size as nat) + " exceeds max "@ + decimal_text(max_size as nat),
        VortexError::OffsetOutOfBounds { requested, base_offset, next_offset } =>
            "Offset out of bounds: requested "@ + decimal_text(requested as nat)
                + ", log range is ["@ + decimal_text(base_offset as nat) + ".."@
                + decimal_text(next_offset as nat) + ")"@,
        VortexError::SchemaValidationFailed { topic, reason } => "Schema validation failure for topic '"@
            + topic@ + "': "@ + reason@,
        VortexError::PoisonPillDetected { reason } => "Poison pill detected: "@ + reason@,
        VortexError::TopicNotFound(t) => "Topic '"@ + t@ + "' not found"@,
        VortexError::PartitionNotFound { topic, partition } => "Partition "@ + decimal_text(
            partition as nat,
        ) + " for topic '"@ + topic@ + "' not found"@,
    }
}

fn word_hex(v: u32) -> (s: String)
    ensures
        s@ == word_hex_text(v),
{
    let mut bytes: Vec<u8> = Vec::new();
    put_u32(&mut bytes, v);
    assert(bytes@ =~= be32(v));
    let digits = hex_string(bytes.as_slice());
    let mut s = String::from_str("0x");
    s.append(digits.as_str());
    s
}

impl VortexError {
    /// The text that reports this error.
    pub fn describe(&self) -> (s: String)
        ensures
            s@ == error_text(*self),
    {
        match self {
            VortexError::Io(m) => {
                let mut s = String::from_str("I/O error: ");
                s.append(m.as_str());
                s
            },
            VortexError::CorruptedRecordCrc { offset, expected, actual } => {
                let mut s = String::from_str("Corrupted record CRC at offset ");
                s.append(decimal_string(*offset).as_str());
                s.append(": expected ");
                s.append(word_hex(*expected).as_str());
                s.append(", found ");
                s.append(word_hex(*actual).as_str());
                s
            },
            VortexError::CryptographicLineageBroken { offset, expected, actual } => {
                let mut s = String::from_str("Cryptographic lineage broken at offset ");
                s.append(decimal_string(*offset).as_str());
                s.append(": expected prev_hash ");
                s.append(expected.as_str());
                s.append(", got ");
                s.append(actual.as_str());
                s
            },
            VortexError::BufferUnderflow { needed, available } => {
                let mut s = String::from_str("Buffer underflow: needed ");
                s.append(decimal_string(*needed as u64).as_str());
                s.append(" bytes, only had ");
                s.append(decimal_string(*available as u64).as_str());
                s
            },
            VortexError::InvalidMagic { expected, actual } => {
                let mut s = String::from_str("Invalid magic byte sequence: expected ");
                s.append(word_hex(*expected).as_str());
                s.append(", got ");
                s.append(word_hex(*actual).as_str());
                s
            },
            VortexError::SegmentFull { current_size, max_size } => {
                let mut s = String::from_str("Segment file full: current size ");
                s.append(decimal_string(*current_size).as_str());
                s.append(" exceeds max ");
                s.append(decimal_string(*max_size).as_str());
                s
            },
            VortexError::OffsetOutOfBounds { requested, base_offset, next_offset } => {
                let mut s = String::from_str("Offset out of bounds: requested ");
                s.append(decimal_string(*requested).as_str());
                s.append(", log range is [");
                s.append(decimal_string(*base_offset).as_str());
                s.append("..");
                s.append(decimal_string(*next_offset).as_str());
                s.append(")");
                s
            },
            VortexError::SchemaValidationFailed { topic, reason } => {
                let mut s = String::from_str("Schema validation failure for topic '");
                s.append(topic.as_str());
                s.append("': ");
                s.append(reason.as_str());
                s
            },
            VortexError::PoisonPillDetected { reason } => {
                let mut s = String::from_str("Poison pill detected: ");
                s.append(reason.as_str());
                s
            },
            VortexError::TopicNotFound(t) => {
                let mut s = String::from_str("Topic '");
                s.append(t.as_str());
                s.append("' not found");
                s
            },
            VortexError::PartitionNotFound { topic, partition } => {
                let mut s = String::from_str("Partition ");
                s.append(decimal_string(*partition as u64).as_str());
                s.append(" for topic '");
                s.append(topic.as_str());
                s.append("' not found");
                s
            },
        }
    }
}

} // verus!

//! Frames: the envelope of every message on the wire, with a magic number,
//! a message type, a request id and a checksummed payload.

use vstd::prelude::*;
use vstd::string::*;
use crate::error::VortexError;
use crate::hash::{crc32, crc32_checksum};
use crate::text::{decimal_string, decimal_text};
use crate::wire::{
    be32, from_be32, lemma_be32_read, lemma_be32_roundtrip, put_slice, put_u32, put_u8,
    read_u32_at,
};

verus! {

/// "VTX1"
pub const VTX_MAGIC: u32 = 0x56545831;

pub const VTX_VERSION: u8 = 1;

pub const FRAME_HEADER_LEN: usize = 18;

/// The kinds of message a frame can carry.
#[derive(Debug, Clone, Copy, PartialEq, Eq, Structural)]
pub enum MessageType {
    ProduceReq,
    ProduceResp,
    FetchReq,
    FetchResp,
    CreateTopicReq,
    CreateTopicResp,
    MetadataReq,
    MetadataResp,
    ErrorResp,
}

/// The byte that stands for a message type on the wire.
pub open spec fn message_type_code(m: MessageType) -> u8 {
    match m {
        MessageType::ProduceReq => 1,
        MessageType::ProduceResp => 2,
        MessageType::FetchReq => 3,
        MessageType::FetchResp => 4,
        MessageType::CreateTopicReq => 5,
        MessageType::CreateTopicResp => 6,
        MessageType::MetadataReq => 7,
        MessageType::MetadataResp => 8,
        MessageType::ErrorResp => 9,
    }
}

/// The message type that a byte stands for, if any.
pub open spec fn message_type_of(code: u8) -> Option<MessageType> {
    if code == 1 {
        Some(MessageType::ProduceReq)
    } else if code == 2 {
        Some(MessageType::ProduceResp)
    } else if code == 3 {
        Some(MessageType::FetchReq)
    } else if code == 4 {
        Some(MessageType::FetchResp)
    } else if code == 5 {
        Some(MessageType::CreateTopicReq)
    } else if code == 6 {
        Some(MessageType::CreateTopicResp)
    } else if code == 7 {
        Some(MessageType::MetadataReq)
    } else if code == 8 {
        Some(MessageType::MetadataResp)
    } else if code == 9 {
        Some(MessageType::ErrorResp)
    } else {
        None
    }
}

/// The error text for a byte that stands for no message type.
pub open spec fn unknown_type_text(code: u8) -> Seq<char> {
    "Unknown message type: "@ + decimal_text(code as nat)
}

impl MessageType {
    /// The byte that stands for this message type on the wire.
    pub fn code(self) -> (c: u8)
        ensures
            c == message_type_code(self),
    {
        match self {
            MessageType::ProduceReq => 1,
            MessageType::ProduceResp => 2,
            MessageType::FetchReq => 3,
            MessageType::FetchResp => 4,
            MessageType::CreateTopicReq => 5,
            MessageType::CreateTopicResp => 6,
            MessageType::MetadataReq => 7,
            MessageType::MetadataResp => 8,
            MessageType::ErrorResp => 9,
        }
    }

    /// The message type a byte stands for, or an I/O error naming the byte.
    pub fn from_code(val: u8) -> (r: Result<MessageType, VortexError>)
        ensures
            match message_type_of(val) {
                Some(m) => r == Ok::<MessageType, VortexError>(m),
                None => r matches Err(VortexError::Io(msg)) && msg@ == unknown_type_text(val),
            },
    {
        match val {
            1 => Ok(MessageType::ProduceReq),
            2 => Ok(MessageType::ProduceResp),
            3 => Ok(MessageType::FetchReq),
            4 => Ok(MessageType::FetchResp),
            5 => Ok(MessageType::CreateTopicReq),
            6 => Ok(MessageType::CreateTopicResp),
            7 => Ok(MessageType::MetadataReq),
            8 => Ok(MessageType::MetadataResp),
            9 => Ok(MessageType::ErrorResp),
            _ => {
                let mut msg = String::from_str("Unknown message type: ");
                let digits = decimal_string(val as u64);
                msg.append(digits.as_str());
                Err(VortexError::Io(msg))
            },
        }
    }
}

impl TryFrom<u8> for MessageType {
    type Error = VortexError;

    /// The message type a byte stands for, or an I/O error naming the byte
    /// (as `MessageType::from_code`).
    fn try_from(val: u8) -> (r: Result<Self, Self::Error>)
        ensures
            match message_type_of(val) {
                Some(m) => r == Ok::<MessageType, VortexError>(m),
                None => r matches Err(VortexError::Io(msg)) && msg@ == unknown_type_text(val),
            },
    {
        MessageType::from_code(val)
    }
}

impl vstd::std_specs::convert::TryFromSpecImpl<u8> for MessageType {
    open spec fn obeys_try_from_spec() -> bool {
        false
    }

    open spec fn try_from_spec(v: u8) -> Result<Self, VortexError> {
        Err(vstd::pervasive::arbitrary())
    }
}

/// A message on the wire: its type, the request it belongs to, and its payload.
#[derive(Debug, Clone, PartialEq, Eq)]
pub struct Frame {
    pub msg_type: MessageType,
    pub req_id: u32,
    pub payload: Vec<u8>,
}

/// The contents of a frame as mathematical values.
pub struct FrameView {
    pub msg_type: MessageType,
    pub req_id: u32,
    pub payload: Seq<u8>,
}

impl View for Frame {
    type V = FrameView;

    open spec fn view(&self) -> FrameView {
        FrameView { msg_type: self.msg_type, req_id: self.req_id, payload: self.payload@ }
    }
}

/// The encoding of a frame:
/// [magic: 4B][version: 1B][msg_type: 1B][req_id: 4B][payload_len: 4B][crc32: 4B][payload],
/// all big-endian.
pub open spec fn encoded_frame(f: FrameView) -> Seq<u8> {
    be32(VTX_MAGIC) + seq![VTX_VERSION, message_type_code(f.msg_type)] + be32(f.req_id) + be32(
        f.payload.len() as u32,
    ) + be32(crc32_checksum(f.payload)) + f.payload
}

/// What decoding finds at the front of a buffer.
pub enum FrameParse {
    /// Not all of the frame has arrived yet.
    Incomplete,
    BadMagic(u32),
    UnknownType(u8),
    ChecksumMismatch { expected: u32, actual: u32 },
    Parsed(FrameView),
}

/// The payload length announced by a frame header at the front of `s`.
pub open spec fn frame_payload_len(s: Seq<u8>) -> int {
    from_be32(s.subrange(10, 14)) as int
}

/// The outcome of decoding a frame from the front of `s`.
pub open spec fn parse_frame(s: Seq<u8>) -> FrameParse {
    if s.len() < 18 {
        FrameParse::Incomplete
    } else if from_be32(s) != VTX_MAGIC {
        FrameParse::BadMagic(from_be32(s))
    } else {
        match message_type_of(s[5]) {
            None => FrameParse::UnknownType(s[5]),
            Some(msg_type) => {
                let len = frame_payload_len(s);
                if s.len() < 18 + len {
                    FrameParse::Incomplete
                } else {
                    let payload = s.subrange(18, 18 + len);
                    let expected = from_be32(s.subrange(14, 18));
                    let actual = crc32_checksum(payload);
                    if expected != actual {
                        FrameParse::ChecksumMismatch { expected, actual }
                    } else {
                        FrameParse::Parsed(
                            FrameView { msg_type, req_id: from_be32(s.subrange(6, 10)), payload },
                        )
                    }
                }
            },
        }
    }
}

/// How many bytes decoding takes from the front of `s`.
pub open spec fn frame_consumed(s: Seq<u8>) -> nat {
    match parse_frame(s) {
        FrameParse::ChecksumMismatch { .. } => (18 + frame_payload_len(s)) as nat,
        FrameParse::Parsed(_) => (18 + frame_payload_len(s)) as nat,
        _ => 0,
    }
}

impl Frame {
    pub fn new(msg_type: MessageType, req_id: u32, payload: Vec<u8>) -> (f: Self)
        ensures
            f.msg_type == msg_type,
            f.req_id == req_id,
            f.payload == payload,
    {
        Self { msg_type, req_id, payload }
    }

    /// Encodes the entire frame into its binary format (see `encoded_frame`).
    pub fn encode(&self) -> (out: Vec<u8>)
        ensures
            out@ == encoded_frame(self@),
    {
        let payload_len = self.payload.len() as u32;
        let crc = crc32(self.payload.as_slice());
        let mut buf: Vec<u8> = Vec::new();
        put_u32(&mut buf, VTX_MAGIC);
        put_u8(&mut buf, VTX_VERSION);
        put_u8(&mut buf, self.msg_type.code());
        put_u32(&mut buf, self.req_id);
        put_u32(&mut buf, payload_len);
        put_u32(&mut buf, crc);
        put_slice(&mut buf, self.payload.as_slice());
        assert(buf@ =~= encoded_frame(self@));
        buf
    }

    /// Attempts to decode a frame from the front of `buf`. While not all of
    /// the frame has arrived it returns `Ok(None)` and leaves `buf` as it was.
    pub fn decode(buf: &mut Vec<u8>) -> (result: Result<Option<Self>, VortexError>)
        ensures
            final(buf)@ == old(buf)@.skip(frame_consumed(old(buf)@) as int),
            match (parse_frame(old(buf)@), result) {
                (FrameParse::Incomplete, Ok(None)) => true,
                (FrameParse::BadMagic(m), Err(VortexError::InvalidMagic { expected, actual })) =>
                    expected == VTX_MAGIC && actual == m,
                (FrameParse::UnknownType(c), Err(VortexError::Io(msg))) => msg@ == unknown_type_text(c),
                (
                    FrameParse::ChecksumMismatch { expected, actual },
                    Err(VortexError::CorruptedRecordCrc { offset: o, expected: e, actual: a }),
                ) => o == 0 && e == expected && a == actual,
                (FrameParse::Parsed(v), Ok(Some(f))) => f@ == v,
                _ => false,
            },
    {
        let ghost s = buf@;
        if buf.len() < FRAME_HEADER_LEN {
            assert(buf@ =~= s.skip(0));
            return Ok(None);
        }
        let magic = read_u32_at(buf.as_slice(), 0);
        assert(s.subrange(0, 4).subrange(0, 4) =~= s.subrange(0, 4));
        proof {
            crate::wire::lemma_from_be32_prefix(s, s.subrange(0, 4));
        }
        if magic != VTX_MAGIC {
            assert(buf@ =~= s.skip(0));
            return Err(VortexError::InvalidMagic { expected: VTX_MAGIC, actual: magic });
        }
        let msg_type = match MessageType::from_code(buf[5]) {
            Ok(m) => m,
            Err(e) => {
                assert(buf@ =~= s.skip(0));
                return Err(e);
            },
        };
        let req_id = read_u32_at(buf.as_slice(), 6);
        let payload_len = read_u32_at(buf.as_slice(), 10) as usize;
        let expected_crc = read_u32_at(buf.as_slice(), 14);
        if buf.len() - FRAME_HEADER_LEN < payload_len {
            assert(buf@ =~= s.skip(0));
            return Ok(None);
        }
        let mut frame_bytes = buf.split_off(FRAME_HEADER_LEN + payload_len);
        std::mem::swap(buf, &mut frame_bytes);
        let payload = frame_bytes.split_off(FRAME_HEADER_LEN);
        assert(payload@ =~= s.subrange(18, 18 + payload_len));
        assert(buf@ =~= s.skip(18 + payload_len));
        let actual_crc = crc32(payload.as_slice());
        if expected_crc != actual_crc {
            return Err(VortexError::CorruptedRecordCrc {
                offset: 0,
                expected: expected_crc,
                actual: actual_crc,
            });
        }
        Ok(Some(Self { msg_type, req_id, payload }))
    }
}

/// Decoding gives back what encoding wrote: a frame whose payload length fits
/// its 32-bit field is decoded, whatever follows it, into the same frame, and
/// exactly its encoding is taken from the buffer.
pub proof fn lemma_frame_roundtrip(f: FrameView, rest: Seq<u8>)
    requires
        f.payload.len() <= u32::MAX,
    ensures
        parse_frame(encoded_frame(f) + rest) == FrameParse::Parsed(f),
        frame_consumed(encoded_frame(f) + rest) == encoded_frame(f).len(),
        (encoded_frame(f) + rest).skip(encoded_frame(f).len() as int) == rest,
{
    let s = encoded_frame(f) + rest;
    let crc = crc32_checksum(f.payload);
    let len = f.payload.len() as u32;
    lemma_be32_read(VTX_MAGIC, s.skip(4));
    assert(s =~= be32(VTX_MAGIC) + s.skip(4));
    assert(s.subrange(6, 10) =~= be32(f.req_id));
    assert(s.subrange(10, 14) =~= be32(len));
    assert(s.subrange(14, 18) =~= be32(crc));
    lemma_be32_roundtrip(f.req_id);
    lemma_be32_roundtrip(len);
    lemma_be32_roundtrip(crc);
    assert(s.subrange(18, 18 + f.payload.len() as int) =~= f.payload);
    assert(s.skip(encoded_frame(f).len() as int) =~= rest);
}

} // verus!

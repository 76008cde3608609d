//! The request and response messages carried in frame payloads.

use vstd::prelude::*;
use vstd::string::*;
use vstd::utf8::{decode_utf8, encode_utf8, encode_utf8_decode_utf8, encode_utf8_valid_utf8, valid_utf8};
use crate::error::VortexError;
use crate::frame::{Frame, MessageType};
use crate::hash::HashDigest;
use crate::record::{
    decode_reports, encoded_record, encoded_records, key_field, lemma_record_consumed_bound, lemma_encoded_records_front, lemma_record_roundtrip, opt_vec, parse_record,
    payload_len, record_consumed, record_fits, record_views, Record, RecordParse, RecordView,
};
use crate::text::{utf8_error_text, utf8_str, utf8_string};
use crate::wire::{
    be16, be32, be64, from_be16, from_be32, from_be64, read_u16_at, read_u32_at, lemma_be16_read, lemma_be16_roundtrip, lemma_be32_read,
    lemma_be32_roundtrip, lemma_be64_roundtrip, lemma_from_be32_at, lemma_from_be64_at, put_slice, put_u16, put_u32,
    put_u64, put_u8, ByteReader,
};

verus! {

/// Why a message could not be decoded.
pub enum DecodeError {
    Underflow { needed: nat, available: nat },
    NotUtf8(Seq<u8>),
    /// A record in the payload failed to decode this way.
    Record(RecordParse),
}

/// What decoding finds at the front of a payload: `Unparseable` where the
/// payload announces more bytes than it holds past the checked prefix,
/// otherwise an error or a value, with the number of bytes taken.
pub enum Decoded<V> {
    Unparseable,
    Failed(DecodeError, nat),
    Parsed(V, nat),
}

impl<V> Decoded<V> {
    pub open spec fn consumed(self) -> nat {
        match self {
            Decoded::Unparseable => 0,
            Decoded::Failed(_, n) => n,
            Decoded::Parsed(_, n) => n,
        }
    }
}

/// The library error that stands for a decoding error.
pub open spec fn reports_error(e: DecodeError, err: VortexError) -> bool {
    match (e, err) {
        (DecodeError::Underflow { needed, available }, VortexError::BufferUnderflow { needed: n, available: a }) =>
            n == needed && a == available,
        (DecodeError::NotUtf8(b), VortexError::Io(m)) => m@ == utf8_error_text(b),
        (DecodeError::Record(p), err) => decode_reports(p, Err(err)),
        _ => false,
    }
}

/// The length-prefixed UTF-8 bytes of a topic name.
pub open spec fn topic_field(topic: Seq<char>) -> Seq<u8> {
    be16(encode_utf8(topic).len() as u16) + encode_utf8(topic)
}

fn put_topic(buf: &mut Vec<u8>, topic: &String)
    ensures
        final(buf)@ == old(buf)@ + topic_field(topic@),
{
    let bytes = topic.as_str().as_bytes();
    put_u16(buf, bytes.len() as u16);
    put_slice(buf, bytes);
    assert(buf@ =~= old(buf)@ + topic_field(topic@));
}

/// Reads `len` bytes as UTF-8 text; an I/O error with std's description when they are not.
fn read_text(r: &mut ByteReader, len: usize) -> (result: Result<String, VortexError>)
    requires
        len <= old(r)@.len(),
    ensures
        final(r)@ == old(r)@.skip(len as int),
        match result {
            Ok(s) => valid_utf8(old(r)@.take(len as int)) && s@ == decode_utf8(
                old(r)@.take(len as int),
            ),
            Err(e) => !valid_utf8(old(r)@.take(len as int)) && reports_error(
                DecodeError::NotUtf8(old(r)@.take(len as int)),
                e,
            ),
        },
{
    let bytes = r.copy_to_vec(len);
    match utf8_string(bytes) {
        Ok(s) => Ok(s),
        Err(m) => Err(VortexError::Io(m)),
    }
}

/// Encoding a topic and reading it back gives the same characters.
proof fn lemma_topic_roundtrip(topic: Seq<char>, rest: Seq<u8>)
    requires
        encode_utf8(topic).len() <= u16::MAX,
    ensures
        from_be16(topic_field(topic) + rest) == encode_utf8(topic).len(),
        (topic_field(topic) + rest).subrange(2, 2 + encode_utf8(topic).len() as int) == encode_utf8(topic),
        valid_utf8(encode_utf8(topic)),
        decode_utf8(encode_utf8(topic)) == topic,
        topic_field(topic).len() == 2 + encode_utf8(topic).len(),
{
    let b = encode_utf8(topic);
    lemma_be16_roundtrip(b.len() as u16);
    assert((topic_field(topic) + rest).subrange(2, 2 + b.len() as int) =~= b);
    encode_utf8_valid_utf8(topic);
    encode_utf8_decode_utf8(topic);
}

// --- PRODUCE REQUEST & RESPONSE ---

#[derive(Debug, Clone, PartialEq, Eq)]
pub struct ProduceRequest {
    pub topic: String,
    pub partition: u32,
    pub key: Option<Vec<u8>>,
    pub value: Vec<u8>,
}

pub struct ProduceRequestView {
    pub topic: Seq<char>,
    pub partition: u32,
    pub key: Option<Seq<u8>>,
    pub value: Seq<u8>,
}

impl View for ProduceRequest {
    type V = ProduceRequestView;

    open spec fn view(&self) -> ProduceRequestView {
        ProduceRequestView {
            topic: self.topic@,
            partition: self.partition,
            key: opt_vec(self.key),
            value: self.value@,
        }
    }
}

/// [topic_len: u16][topic][partition: u32][key_len: i32][key][val_len: u32][val]
pub open spec fn produce_request_payload(r: ProduceRequestView) -> Seq<u8> {
    topic_field(r.topic) + be32(r.partition) + key_field(r.key) + be32(r.value.len() as u32)
        + r.value
}

/// The outcome of decoding a produce request from the front of `s`.
pub open spec fn parse_produce_request(s: Seq<u8>) -> Decoded<ProduceRequestView> {
    if s.len() < 2 {
        Decoded::Failed(DecodeError::Underflow { needed: 2, available: s.len() }, 0)
    } else {
        let tl = from_be16(s) as int;
        if s.len() - 2 < tl + 12 {
            Decoded::Failed(DecodeError::Underflow { needed: (tl + 12) as nat, available: (s.len() - 2) as nat }, 2)
        } else {
            let tb = s.subrange(2, 2 + tl);
            if !valid_utf8(tb) {
                Decoded::Failed(DecodeError::NotUtf8(tb), (2 + tl) as nat)
            } else {
                let partition = from_be32(s.subrange(2 + tl, 6 + tl));
                let kf = from_be32(s.subrange(6 + tl, 10 + tl));
                let (key, pos) = if kf < 0x8000_0000 {
                    (Some(s.subrange(10 + tl, 10 + tl + kf)), 10 + tl + kf)
                } else {
                    (None::<Seq<u8>>, 10 + tl)
                };
                if s.len() < pos + 4 {
                    Decoded::Unparseable
                } else {
                    let vl = from_be32(s.subrange(pos, pos + 4)) as int;
                    if s.len() < pos + 4 + vl {
                        Decoded::Unparseable
                    } else {
                        Decoded::Parsed(
                            ProduceRequestView {
                                topic: decode_utf8(tb),
                                partition,
                                key,
                                value: s.subrange(pos + 4, pos + 4 + vl),
                            },
                            (pos + 4 + vl) as nat,
                        )
                    }
                }
            }
        }
    }
}

impl ProduceRequest {
    pub fn encode(&self, req_id: u32) -> (f: Frame)
        ensures
            f.msg_type == MessageType::ProduceReq,
            f.req_id == req_id,
            f.payload@ == produce_request_payload(self@),
    {
        let mut buf: Vec<u8> = Vec::new();
        put_topic(&mut buf, &self.topic);
        put_u32(&mut buf, self.partition);
        match &self.key {
            Some(k) => {
                put_u32(&mut buf, k.len() as u32);
                put_slice(&mut buf, k.as_slice());
            },
            None => {
                put_u32(&mut buf, 0xFFFF_FFFF);
            },
        }
        put_u32(&mut buf, self.value.len() as u32);
        put_slice(&mut buf, self.value.as_slice());
        assert(buf@ =~= produce_request_payload(self@));
        Frame::new(MessageType::ProduceReq, req_id, buf)
    }

    #[verifier::rlimit(50)]
    pub fn decode(payload: &mut ByteReader) -> (result: Result<Self, VortexError>)
        requires
            !(parse_produce_request(old(payload)@) is Unparseable),
        ensures
            final(payload)@ == old(payload)@.skip(parse_produce_request(old(payload)@).consumed() as int),
            match (parse_produce_request(old(payload)@), result) {
                (Decoded::Failed(e, _), Err(err)) => reports_error(e, err),
                (Decoded::Parsed(v, _), Ok(r)) => r@ == v,
                _ => false,
            },
    {
        let ghost s = payload@;
        if payload.remaining() < 2 {
            let available = payload.remaining();
            return Err(VortexError::BufferUnderflow { needed: 2, available });
        }
        let topic_len = payload.get_u16() as usize;
        if payload.remaining() < topic_len + 4 + 4 + 4 {
            let available = payload.remaining();
            return Err(VortexError::BufferUnderflow { needed: topic_len + 12, available });
        }
        assert(payload@.take(topic_len as int) =~= s.subrange(2, 2 + topic_len));
        let topic = read_text(payload, topic_len)?;
        assert(payload@ =~= s.skip(2 + topic_len));
        let partition = payload.get_u32();
        proof {
            lemma_from_be32_at(s, 2 + topic_len);
        }
        let key_len = payload.get_u32();
        proof {
            lemma_from_be32_at(s, 6 + topic_len);
        }
        let ghost pos0: int = 10 + topic_len;
        let key = if key_len < 0x8000_0000 {
            let k = payload.copy_to_vec(key_len as usize);
            assert(k@ =~= s.subrange(pos0, pos0 + key_len));
            Some(k)
        } else {
            None
        };
        let ghost pos: int = if key_len < 0x8000_0000 { pos0 + key_len } else { pos0 };
        assert(payload@ =~= s.skip(pos));
        let val_len = payload.get_u32() as usize;
        proof {
            lemma_from_be32_at(s, pos);
        }
        let value = payload.copy_to_vec(val_len);
        assert(value@ =~= s.subrange(pos + 4, pos + 4 + val_len));
        assert(payload@ =~= s.skip(pos + 4 + val_len));
        Ok(Self { topic, partition, key, value })
    }
}


impl ProduceRequest {
    /// Whether decoding `s` runs past the end of a field.
    fn runs_past_end(s: &[u8]) -> (r: bool)
        ensures
            r == (parse_produce_request(s@) is Unparseable),
    {
        let n = s.len();
        if n < 2 {
            return false;
        }
        let tl = read_u16_at(s, 0) as usize;
        if n - 2 < tl + 12 {
            return false;
        }
        if utf8_str(vstd::slice::slice_subrange(s, 2, 2 + tl)).is_none() {
            return false;
        }
        let kf = read_u32_at(s, 6 + tl) as usize;
        let pos = if kf < 0x8000_0000 {
            if n < 10 + tl + kf {
                return true;
            }
            10 + tl + kf
        } else {
            10 + tl
        };
        if n - pos < 4 {
            return true;
        }
        let vl = read_u32_at(s, pos) as usize;
        n - pos - 4 < vl
    }

    /// Decodes like `decode`, except on payloads that `decode` does not
    /// accept: there it returns `None` and leaves `payload` as it was.
    pub fn try_decode(payload: &mut ByteReader) -> (result: Option<Result<Self, VortexError>>)
        ensures
            result is None <==> parse_produce_request(old(payload)@) is Unparseable,
            result is None ==> final(payload)@ == old(payload)@,
            result is Some ==> final(payload)@ == old(payload)@.skip(
                parse_produce_request(old(payload)@).consumed() as int,
            ),
            match (parse_produce_request(old(payload)@), result) {
                (Decoded::Failed(e, _), Some(Err(err))) => reports_error(e, err),
                (Decoded::Parsed(v, _), Some(Ok(r))) => r@ == v,
                (Decoded::Unparseable, None) => true,
                _ => false,
            },
    {
        if Self::runs_past_end(payload.chunk()) {
            None
        } else {
            Some(Self::decode(payload))
        }
    }
}

/// A produce request whose lengths fit their fields is decoded, whatever
/// follows it, from its encoding into the same request.
#[verifier::rlimit(80)]
pub proof fn lemma_produce_request_roundtrip(r: ProduceRequestView, rest: Seq<u8>)
    requires
        encode_utf8(r.topic).len() <= u16::MAX,
        match r.key {
            Some(k) => k.len() < 0x8000_0000,
            None => true,
        },
        r.value.len() <= u32::MAX,
    ensures
        parse_produce_request(produce_request_payload(r) + rest) == Decoded::Parsed(
            r,
            produce_request_payload(r).len(),
        ),
{
    let tb = encode_utf8(r.topic);
    let tl = tb.len() as int;
    let kf = key_field(r.key);
    let s = produce_request_payload(r) + rest;
    lemma_topic_roundtrip(r.topic, s.skip(2 + tl));
    assert(s =~= topic_field(r.topic) + s.skip(2 + tl));
    assert(from_be16(s) == tl);
    assert(s.subrange(2, 2 + tl) == tb);
    assert(s.subrange(2 + tl, 6 + tl) =~= be32(r.partition));
    lemma_be32_roundtrip(r.partition);
    lemma_be32_roundtrip(r.value.len() as u32);
    match r.key {
        Some(k) => {
            let kl = k.len() as int;
            lemma_be32_roundtrip(k.len() as u32);
            assert(s.subrange(6 + tl, 10 + tl) =~= be32(k.len() as u32));
            assert(s.subrange(10 + tl, 10 + tl + kl) =~= k);
            assert(s.subrange(10 + tl + kl, 14 + tl + kl) =~= be32(r.value.len() as u32));
            assert(s.subrange(14 + tl + kl, 14 + tl + kl + r.value.len()) =~= r.value);
        },
        None => {
            lemma_be32_roundtrip(0xFFFF_FFFFu32);
            assert(s.subrange(6 + tl, 10 + tl) =~= be32(0xFFFF_FFFF));
            assert(s.subrange(10 + tl, 14 + tl) =~= be32(r.value.len() as u32));
            assert(s.subrange(14 + tl, 14 + tl + r.value.len()) =~= r.value);
        },
    }
}


#[derive(Debug, Clone, PartialEq, Eq)]
pub struct ProduceResponse {
    pub offset: u64,
    pub timestamp: u64,
    pub record_hash: HashDigest,
}

pub struct ProduceResponseView {
    pub offset: u64,
    pub timestamp: u64,
    pub record_hash: Seq<u8>,
}

impl View for ProduceResponse {
    type V = ProduceResponseView;

    open spec fn view(&self) -> ProduceResponseView {
        ProduceResponseView {
            offset: self.offset,
            timestamp: self.timestamp,
            record_hash: self.record_hash@,
        }
    }
}

/// [offset: u64][timestamp: u64][record_hash: 32B]
pub open spec fn produce_response_payload(r: ProduceResponseView) -> Seq<u8> {
    be64(r.offset) + be64(r.timestamp) + r.record_hash
}

pub open spec fn parse_produce_response(s: Seq<u8>) -> Decoded<ProduceResponseView> {
    if s.len() < 48 {
        Decoded::Failed(DecodeError::Underflow { needed: 48, available: s.len() }, 0)
    } else {
        Decoded::Parsed(
            ProduceResponseView {
                offset: from_be64(s),
                timestamp: from_be64(s.subrange(8, 16)),
                record_hash: s.subrange(16, 48),
            },
            48,
        )
    }
}

impl ProduceResponse {
    pub fn encode(&self, req_id: u32) -> (f: Frame)
        ensures
            f.msg_type == MessageType::ProduceResp,
            f.req_id == req_id,
            f.payload@ == produce_response_payload(self@),
    {
        let mut buf: Vec<u8> = Vec::new();
        put_u64(&mut buf, self.offset);
        put_u64(&mut buf, self.timestamp);
        put_slice(&mut buf, self.record_hash.as_slice());
        assert(buf@ =~= produce_response_payload(self@));
        Frame::new(MessageType::ProduceResp, req_id, buf)
    }

    pub fn decode(payload: &mut ByteReader) -> (result: Result<Self, VortexError>)
        ensures
            final(payload)@ == old(payload)@.skip(parse_produce_response(old(payload)@).consumed() as int),
            match (parse_produce_response(old(payload)@), result) {
                (Decoded::Failed(e, _), Err(err)) => reports_error(e, err),
                (Decoded::Parsed(v, _), Ok(r)) => r@ == v,
                _ => false,
            },
    {
        let ghost s = payload@;
        if payload.remaining() < 8 + 8 + 32 {
            let available = payload.remaining();
            assert(payload@ =~= s.skip(0));
            return Err(VortexError::BufferUnderflow { needed: 48, available });
        }
        let offset = payload.get_u64();
        let timestamp = payload.get_u64();
        proof {
            lemma_from_be64_at(s, 8);
        }
        let bytes = payload.copy_to_vec(32);
        let mut record_hash: HashDigest = [0u8; 32];
        let mut i: usize = 0;
        while i < 32
            invariant
                i <= 32,
                bytes@.len() == 32,
                forall|j: int| 0 <= j < i ==> record_hash@[j] == bytes@[j],
            decreases 32 - i,
        {
            record_hash[i] = bytes[i];
            i = i + 1;
        }
        assert(record_hash@ =~= s.subrange(16, 48));
        assert(payload@ =~= s.skip(48));
        Ok(Self { offset, timestamp, record_hash })
    }
}

/// A produce response is decoded, whatever follows it, from its encoding
/// into the same response.
pub proof fn lemma_produce_response_roundtrip(r: ProduceResponseView, rest: Seq<u8>)
    requires
        r.record_hash.len() == 32,
    ensures
        parse_produce_response(produce_response_payload(r) + rest) == Decoded::Parsed(r, 48),
{
    let s = produce_response_payload(r) + rest;
    lemma_be64_roundtrip(r.timestamp);
    assert(s =~= be64(r.offset) + s.skip(8));
    crate::wire::lemma_be64_read(r.offset, s.skip(8));
    assert(s.subrange(8, 16) =~= be64(r.timestamp));
    assert(s.subrange(16, 48) =~= r.record_hash);
}

// --- FETCH REQUEST & RESPONSE ---

#[derive(Debug, Clone, PartialEq, Eq)]
pub struct FetchRequest {
    pub topic: String,
    pub partition: u32,
    pub start_offset: u64,
    pub max_bytes: u32,
}

pub struct FetchRequestView {
    pub topic: Seq<char>,
    pub partition: u32,
    pub start_offset: u64,
    pub max_bytes: u32,
}

impl View for FetchRequest {
    type V = FetchRequestView;

    open spec fn view(&self) -> FetchRequestView {
        FetchRequestView {
            topic: self.topic@,
            partition: self.partition,
            start_offset: self.start_offset,
            max_bytes: self.max_bytes,
        }
    }
}

/// [topic_len: u16][topic][partition: u32][start_offset: u64][max_bytes: u32]
pub open spec fn fetch_request_payload(r: FetchRequestView) -> Seq<u8> {
    topic_field(r.topic) + be32(r.partition) + be64(r.start_offset) + be32(r.max_bytes)
}

pub open spec fn parse_fetch_request(s: Seq<u8>) -> Decoded<FetchRequestView> {
    if s.len() < 2 {
        Decoded::Failed(DecodeError::Underflow { needed: 2, available: s.len() }, 0)
    } else {
        let tl = from_be16(s) as int;
        if s.len() - 2 < tl + 16 {
            Decoded::Failed(DecodeError::Underflow { needed: (tl + 16) as nat, available: (s.len() - 2) as nat }, 2)
        } else {
            let tb = s.subrange(2, 2 + tl);
            if !valid_utf8(tb) {
                Decoded::Failed(DecodeError::NotUtf8(tb), (2 + tl) as nat)
            } else {
                Decoded::Parsed(
                    FetchRequestView {
                        topic: decode_utf8(tb),
                        partition: from_be32(s.subrange(2 + tl, 6 + tl)),
                        start_offset: from_be64(s.subrange(6 + tl, 14 + tl)),
                        max_bytes: from_be32(s.subrange(14 + tl, 18 + tl)),
                    },
                    (18 + tl) as nat,
                )
            }
        }
    }
}

impl FetchRequest {
    pub fn encode(&self, req_id: u32) -> (f: Frame)
        ensures
            f.msg_type == MessageType::FetchReq,
            f.req_id == req_id,
            f.payload@ == fetch_request_payload(self@),
    {
        let mut buf: Vec<u8> = Vec::new();
        put_topic(&mut buf, &self.topic);
        put_u32(&mut buf, self.partition);
        put_u64(&mut buf, self.start_offset);
        put_u32(&mut buf, self.max_bytes);
        assert(buf@ =~= fetch_request_payload(self@));
        Frame::new(MessageType::FetchReq, req_id, buf)
    }

    pub fn decode(payload: &mut ByteReader) -> (result: Result<Self, VortexError>)
        ensures
            final(payload)@ == old(payload)@.skip(parse_fetch_request(old(payload)@).consumed() as int),
            match (parse_fetch_request(old(payload)@), result) {
                (Decoded::Failed(e, _), Err(err)) => reports_error(e, err),
                (Decoded::Parsed(v, _), Ok(r)) => r@ == v,
                _ => false,
            },
    {
        let ghost s = payload@;
        if payload.remaining() < 2 {
            let available = payload.remaining();
            assert(payload@ =~= s.skip(0));
            return Err(VortexError::BufferUnderflow { needed: 2, available });
        }
        let topic_len = payload.get_u16() as usize;
        if payload.remaining() < topic_len + 4 + 8 + 4 {
            let available = payload.remaining();
            return Err(VortexError::BufferUnderflow { needed: topic_len + 16, available });
        }
        assert(payload@.take(topic_len as int) =~= s.subrange(2, 2 + topic_len));
        let topic = read_text(payload, topic_len)?;
        assert(payload@ =~= s.skip(2 + topic_len));
        let partition = payload.get_u32();
        let start_offset = payload.get_u64();
        let max_bytes = payload.get_u32();
        proof {
            lemma_from_be32_at(s, 2 + topic_len);
            lemma_from_be64_at(s, 6 + topic_len);
            lemma_from_be32_at(s, 14 + topic_len);
        }
        assert(payload@ =~= s.skip(18 + topic_len));
        Ok(Self { topic, partition, start_offset, max_bytes })
    }
}

/// A fetch request whose topic fits its 16-bit length field is decoded,
/// whatever follows it, from its encoding into the same request.
#[verifier::rlimit(40)]
pub proof fn lemma_fetch_request_roundtrip(r: FetchRequestView, rest: Seq<u8>)
    requires
        encode_utf8(r.topic).len() <= u16::MAX,
    ensures
        parse_fetch_request(fetch_request_payload(r) + rest) == Decoded::Parsed(
            r,
            fetch_request_payload(r).len(),
        ),
{
    let tb = encode_utf8(r.topic);
    let tl = tb.len() as int;
    let s = fetch_request_payload(r) + rest;
    lemma_topic_roundtrip(r.topic, s.skip(2 + tl));
    assert(s =~= topic_field(r.topic) + s.skip(2 + tl));
    assert(from_be16(s) == tl);
    assert(s.subrange(2, 2 + tl) == tb);
    assert(s.subrange(2 + tl, 6 + tl) =~= be32(r.partition));
    assert(s.subrange(6 + tl, 14 + tl) =~= be64(r.start_offset));
    assert(s.subrange(14 + tl, 18 + tl) =~= be32(r.max_bytes));
    lemma_be32_roundtrip(r.partition);
    lemma_be64_roundtrip(r.start_offset);
    lemma_be32_roundtrip(r.max_bytes);
}

#[derive(Debug, Clone, PartialEq, Eq)]
pub struct FetchResponse {
    pub records: Vec<Record>,
}

/// [count: u32] followed by each record's encoding.
pub open spec fn fetch_response_payload(rs: Seq<RecordView>) -> Seq<u8> {
    be32(rs.len() as u32) + encoded_records(rs)
}

/// The outcome of decoding `count` records from the front of `s`, after
/// `acc` was decoded from the `used` bytes before it.
pub open spec fn parse_records_from(s: Seq<u8>, count: nat, acc: Seq<RecordView>, used: nat) -> Decoded<
    Seq<RecordView>,
>
    decreases count,
{
    if count == 0 {
        Decoded::Parsed(acc, used)
    } else {
        match parse_record(s) {
            RecordParse::Unparseable => Decoded::Unparseable,
            RecordParse::Parsed(r) => parse_records_from(
                s.skip(record_consumed(s) as int),
                (count - 1) as nat,
                acc.push(r),
                used + record_consumed(s),
            ),
            other => Decoded::Failed(DecodeError::Record(other), used + record_consumed(s)),
        }
    }
}

pub open spec fn parse_fetch_response(s: Seq<u8>) -> Decoded<Seq<RecordView>> {
    if s.len() < 4 {
        Decoded::Failed(DecodeError::Underflow { needed: 4, available: s.len() }, 0)
    } else {
        parse_records_from(s.skip(4), from_be32(s) as nat, seq![], 4)
    }
}

/// Every record can be encoded without its length field overflowing.
pub open spec fn all_encodable(rs: Seq<RecordView>) -> bool {
    forall|i: int|
        0 <= i < rs.len() ==> payload_len(#[trigger] rs[i]) <= usize::MAX && (payload_len(rs[i]) as u32)
            + 4 <= u32::MAX
}

impl FetchResponse {
    /// Whether every record of the response can be encoded.
    pub fn is_encodable(&self) -> (r: bool)
        ensures
            r == all_encodable(record_views(self.records@)),
    {
        let ghost views = record_views(self.records@);
        let mut i: usize = 0;
        while i < self.records.len()
            invariant
                i <= self.records@.len(),
                views == record_views(self.records@),
                all_encodable(views.take(i as int)),
            decreases self.records.len() - i,
        {
            assert(views[i as int] == self.records@[i as int]@);
            if !self.records[i].is_encodable() {
                assert(!all_encodable(views));
                return false;
            }
            i = i + 1;
            assert(forall|k: int| 0 <= k < i ==> views.take(i as int)[k] == views[k]);
        }
        assert(views.take(i as int) =~= views);
        true
    }

    pub fn encode(&self, req_id: u32) -> (f: Frame)
        requires
            all_encodable(record_views(self.records@)),
        ensures
            f.msg_type == MessageType::FetchResp,
            f.req_id == req_id,
            f.payload@ == fetch_response_payload(record_views(self.records@)),
    {
        let mut buf: Vec<u8> = Vec::new();
        put_u32(&mut buf, self.records.len() as u32);
        let ghost views = record_views(self.records@);
        let mut i: usize = 0;
        while i < self.records.len()
            invariant
                i <= self.records@.len(),
                views == record_views(self.records@),
                all_encodable(views),
                buf@ == be32(self.records@.len() as u32) + encoded_records(views.take(i as int)),
            decreases self.records.len() - i,
        {
            assert(views[i as int] == self.records@[i as int]@);
            let enc = self.records[i].encode();
            put_slice(&mut buf, enc.as_slice());
            i = i + 1;
            assert(views.take(i as int).drop_last() =~= views.take(i - 1));
            assert(buf@ =~= be32(self.records@.len() as u32) + encoded_records(views.take(i as int)));
        }
        assert(views.take(self.records@.len() as int) =~= views);
        Frame::new(MessageType::FetchResp, req_id, buf)
    }

    pub fn decode(payload: &mut ByteReader) -> (result: Result<Self, VortexError>)
        requires
            !(parse_fetch_response(old(payload)@) is Unparseable),
        ensures
            final(payload)@ == old(payload)@.skip(parse_fetch_response(old(payload)@).consumed() as int),
            match (parse_fetch_response(old(payload)@), result) {
                (Decoded::Failed(e, _), Err(err)) => reports_error(e, err),
                (Decoded::Parsed(v, _), Ok(r)) => record_views(r.records@) == v,
                _ => false,
            },
    {
        let ghost s = payload@;
        if payload.remaining() < 4 {
            let available = payload.remaining();
            assert(payload@ =~= s.skip(0));
            return Err(VortexError::BufferUnderflow { needed: 4, available });
        }
        let count = payload.get_u32();
        let mut records: Vec<Record> = Vec::new();
        assert(record_views(records@) =~= seq![]);
        let mut i: u32 = 0;
        let ghost mut used: nat = 4;
        while i < count
            invariant
                i <= count,
                s == old(payload)@,
                count == from_be32(s),
                s.len() >= 4,
                used <= s.len(),
                payload@ == s.skip(used as int),
                parse_fetch_response(s) == parse_records_from(
                    payload@,
                    (count - i) as nat,
                    record_views(records@),
                    used,
                ),
                !(parse_fetch_response(s) is Unparseable),
            decreases count - i,
        {
            let ghost before = payload@;
            let ghost views = record_views(records@);
            proof {
                lemma_record_consumed_bound(before);
            }
            let rec = match Record::decode(payload) {
                Ok(r) => r,
                Err(e) => {
                    assert(payload@ =~= s.skip((used + record_consumed(before)) as int));
                    assert(!(parse_record(before) is Parsed));
                    assert(parse_records_from(before, (count - i) as nat, views, used)
                        == Decoded::<Seq<RecordView>>::Failed(
                        DecodeError::Record(parse_record(before)),
                        used + record_consumed(before),
                    ));
                    return Err(e);
                },
            };
            proof {
                assert(payload@ =~= s.skip((used + record_consumed(before)) as int));
                used = used + record_consumed(before);
            }
            records.push(rec);
            assert(record_views(records@) =~= views.push(rec@));
            i = i + 1;
        }
        Ok(Self { records })
    }

    /// Whether decoding `payload` runs past the end of a record's fields.
    fn runs_past_end(payload: &ByteReader) -> (r: bool)
        ensures
            r == (parse_fetch_response(payload@) is Unparseable),
    {
        let mut probe = payload.duplicate();
        let ghost s = probe@;
        if probe.remaining() < 4 {
            return false;
        }
        let count = probe.get_u32();
        let mut i: u32 = 0;
        let ghost mut used: nat = 4;
        let ghost mut acc: Seq<RecordView> = seq![];
        while i < count
            invariant
                i <= count,
                count == from_be32(s),
                s.len() >= 4,
                parse_fetch_response(s) == parse_records_from(probe@, (count - i) as nat, acc, used),
                s == payload@,
            decreases count - i,
        {
            let ghost before = probe@;
            match Record::try_decode(&mut probe) {
                None => {
                    return true;
                },
                Some(Err(_)) => {
                    return false;
                },
                Some(Ok(rec)) => {
                    proof {
                        used = used + record_consumed(before);
                        acc = acc.push(rec@);
                    }
                },
            }
            i = i + 1;
        }
        false
    }

    /// Decodes like `decode`, except on payloads that `decode` does not
    /// accept: there it returns `None` and leaves `payload` as it was.
    pub fn try_decode(payload: &mut ByteReader) -> (result: Option<Result<Self, VortexError>>)
        ensures
            result is None <==> parse_fetch_response(old(payload)@) is Unparseable,
            result is None ==> final(payload)@ == old(payload)@,
            result is Some ==> final(payload)@ == old(payload)@.skip(
                parse_fetch_response(old(payload)@).consumed() as int,
            ),
            match (parse_fetch_response(old(payload)@), result) {
                (Decoded::Failed(e, _), Some(Err(err))) => reports_error(e, err),
                (Decoded::Parsed(v, _), Some(Ok(r))) => record_views(r.records@) == v,
                (Decoded::Unparseable, None) => true,
                _ => false,
            },
    {
        if Self::runs_past_end(payload) {
            None
        } else {
            Some(Self::decode(payload))
        }
    }
}


#[verifier::rlimit(50)]
proof fn lemma_parse_encoded_records(
    rs: Seq<RecordView>,
    rest: Seq<u8>,
    acc: Seq<RecordView>,
    used: nat,
)
    requires
        forall|i: int| 0 <= i < rs.len() ==> record_fits(#[trigger] rs[i]) && rs[i].is_sealed(),
    ensures
        parse_records_from(encoded_records(rs) + rest, rs.len(), acc, used) == Decoded::Parsed(
            acc + rs,
            used + encoded_records(rs).len(),
        ),
    decreases rs.len(),
{
    if rs.len() == 0 {
        assert(acc + rs =~= acc);
        assert(encoded_records(rs) + rest =~= rest);
    } else {
        lemma_encoded_records_front(rs);
        let r0 = rs[0];
        let tail = encoded_records(rs.drop_first()) + rest;
        let s = encoded_records(rs) + rest;
        assert(s =~= encoded_record(r0) + tail);
        assert(record_fits(r0) && r0.is_sealed());
        lemma_record_roundtrip(r0, tail);
        let c = record_consumed(s);
        assert(parse_record(s) == RecordParse::Parsed(r0));
        assert(c == encoded_record(r0).len());
        assert(s.skip(c as int) =~= tail);
        assert(parse_records_from(s, rs.len(), acc, used) == parse_records_from(
            tail,
            (rs.len() - 1) as nat,
            acc.push(r0),
            used + c,
        ));
        assert forall|i: int| 0 <= i < rs.drop_first().len() implies record_fits(
            #[trigger] rs.drop_first()[i],
        ) && rs.drop_first()[i].is_sealed() by {
            assert(rs.drop_first()[i] == rs[i + 1]);
        }
        lemma_parse_encoded_records(rs.drop_first(), rest, acc.push(r0), used + c);
        assert(rs.drop_first().len() == (rs.len() - 1) as nat);
        assert(acc.push(r0) + rs.drop_first() =~= acc + rs);
    }
}

/// A fetch response whose records are sealed and fit their encodings is
/// decoded, whatever follows it, into the same records.
pub proof fn lemma_fetch_response_roundtrip(rs: Seq<RecordView>, rest: Seq<u8>)
    requires
        rs.len() <= u32::MAX,
        forall|i: int| 0 <= i < rs.len() ==> record_fits(#[trigger] rs[i]) && rs[i].is_sealed(),
    ensures
        parse_fetch_response(fetch_response_payload(rs) + rest) == Decoded::Parsed(
            rs,
            fetch_response_payload(rs).len(),
        ),
{
    let s = fetch_response_payload(rs) + rest;
    assert(s =~= be32(rs.len() as u32) + (encoded_records(rs) + rest));
    lemma_be32_read(rs.len() as u32, encoded_records(rs) + rest);
    assert(s.skip(4) =~= encoded_records(rs) + rest);
    lemma_parse_encoded_records(rs, rest, seq![], 4);
    assert(seq![] + rs =~= rs);
}

// --- CREATE TOPIC ---

#[derive(Debug, Clone, PartialEq, Eq)]
pub struct CreateTopicRequest {
    pub topic: String,
    pub partitions: u32,
}

pub struct CreateTopicRequestView {
    pub topic: Seq<char>,
    pub partitions: u32,
}

impl View for CreateTopicRequest {
    type V = CreateTopicRequestView;

    open spec fn view(&self) -> CreateTopicRequestView {
        CreateTopicRequestView { topic: self.topic@, partitions: self.partitions }
    }
}

/// [topic_len: u16][topic][partitions: u32]
pub open spec fn create_topic_request_payload(r: CreateTopicRequestView) -> Seq<u8> {
    topic_field(r.topic) + be32(r.partitions)
}

pub open spec fn parse_create_topic_request(s: Seq<u8>) -> Decoded<CreateTopicRequestView> {
    if s.len() < 2 {
        Decoded::Unparseable
    } else {
        let tl = from_be16(s) as int;
        if s.len() - 2 < tl {
            Decoded::Unparseable
        } else {
            let tb = s.subrange(2, 2 + tl);
            if !valid_utf8(tb) {
                Decoded::Failed(DecodeError::NotUtf8(tb), (2 + tl) as nat)
            } else if s.len() - 2 - tl < 4 {
                Decoded::Unparseable
            } else {
                Decoded::Parsed(
                    CreateTopicRequestView {
                        topic: decode_utf8(tb),
                        partitions: from_be32(s.subrange(2 + tl, 6 + tl)),
                    },
                    (6 + tl) as nat,
                )
            }
        }
    }
}

impl CreateTopicRequest {
    pub fn encode(&self, req_id: u32) -> (f: Frame)
        ensures
            f.msg_type == MessageType::CreateTopicReq,
            f.req_id == req_id,
            f.payload@ == create_topic_request_payload(self@),
    {
        let mut buf: Vec<u8> = Vec::new();
        put_topic(&mut buf, &self.topic);
        put_u32(&mut buf, self.partitions);
        assert(buf@ =~= create_topic_request_payload(self@));
        Frame::new(MessageType::CreateTopicReq, req_id, buf)
    }

    pub fn decode(payload: &mut ByteReader) -> (result: Result<Self, VortexError>)
        requires
            !(parse_create_topic_request(old(payload)@) is Unparseable),
        ensures
            final(payload)@ == old(payload)@.skip(
                parse_create_topic_request(old(payload)@).consumed() as int,
            ),
            match (parse_create_topic_request(old(payload)@), result) {
                (Decoded::Failed(e, _), Err(err)) => reports_error(e, err),
                (Decoded::Parsed(v, _), Ok(r)) => r@ == v,
                _ => false,
            },
    {
        let ghost s = payload@;
        let topic_len = payload.get_u16() as usize;
        assert(payload@.take(topic_len as int) =~= s.subrange(2, 2 + topic_len));
        let topic = read_text(payload, topic_len)?;
        assert(payload@ =~= s.skip(2 + topic_len));
        let partitions = payload.get_u32();
        proof {
            lemma_from_be32_at(s, 2 + topic_len);
        }
        assert(payload@ =~= s.skip(6 + topic_len));
        Ok(Self { topic, partitions })
    }

    fn runs_past_end(s: &[u8]) -> (r: bool)
        ensures
            r == (parse_create_topic_request(s@) is Unparseable),
    {
        let n = s.len();
        if n < 2 {
            return true;
        }
        let tl = read_u16_at(s, 0) as usize;
        if n - 2 < tl {
            return true;
        }
        if utf8_str(vstd::slice::slice_subrange(s, 2, 2 + tl)).is_none() {
            return false;
        }
        n - 2 - tl < 4
    }

    /// Decodes like `decode`, except on payloads that `decode` does not
    /// accept: there it returns `None` and leaves `payload` as it was.
    pub fn try_decode(payload: &mut ByteReader) -> (result: Option<Result<Self, VortexError>>)
        ensures
            result is None <==> parse_create_topic_request(old(payload)@) is Unparseable,
            result is None ==> final(payload)@ == old(payload)@,
            result is Some ==> final(payload)@ == old(payload)@.skip(
                parse_create_topic_request(old(payload)@).consumed() as int,
            ),
            match (parse_create_topic_request(old(payload)@), result) {
                (Decoded::Failed(e, _), Some(Err(err))) => reports_error(e, err),
                (Decoded::Parsed(v, _), Some(Ok(r))) => r@ == v,
                (Decoded::Unparseable, None) => true,
                _ => false,
            },
    {
        if Self::runs_past_end(payload.chunk()) {
            None
        } else {
            Some(Self::decode(payload))
        }
    }
}

/// A create-topic request whose topic fits its 16-bit length field is
/// decoded, whatever follows it, into the same request.
pub proof fn lemma_create_topic_request_roundtrip(r: CreateTopicRequestView, rest: Seq<u8>)
    requires
        encode_utf8(r.topic).len() <= u16::MAX,
    ensures
        parse_create_topic_request(create_topic_request_payload(r) + rest) == Decoded::Parsed(
            r,
            create_topic_request_payload(r).len(),
        ),
{
    let tb = encode_utf8(r.topic);
    let tl = tb.len() as int;
    let s = create_topic_request_payload(r) + rest;
    lemma_topic_roundtrip(r.topic, s.skip(2 + tl));
    assert(s =~= topic_field(r.topic) + s.skip(2 + tl));
    assert(from_be16(s) == tl);
    assert(s.subrange(2, 2 + tl) == tb);
    assert(s.subrange(2 + tl, 6 + tl) =~= be32(r.partitions));
    lemma_be32_roundtrip(r.partitions);
}

#[derive(Debug, Clone, PartialEq, Eq)]
pub struct CreateTopicResponse {
    pub success: bool,
}

/// A single byte: 1 for success, 0 otherwise.
pub open spec fn create_topic_response_payload(success: bool) -> Seq<u8> {
    seq![if success { 1u8 } else { 0u8 }]
}

pub open spec fn parse_create_topic_response(s: Seq<u8>) -> Decoded<bool> {
    if s.len() < 1 {
        Decoded::Unparseable
    } else {
        Decoded::Parsed(s[0] == 1, 1)
    }
}

impl CreateTopicResponse {
    pub fn encode(&self, req_id: u32) -> (f: Frame)
        ensures
            f.msg_type == MessageType::CreateTopicResp,
            f.req_id == req_id,
            f.payload@ == create_topic_response_payload(self.success),
    {
        let mut buf: Vec<u8> = Vec::new();
        put_u8(&mut buf, if self.success { 1 } else { 0 });
        assert(buf@ =~= create_topic_response_payload(self.success));
        Frame::new(MessageType::CreateTopicResp, req_id, buf)
    }

    pub fn decode(payload: &mut ByteReader) -> (result: Result<Self, VortexError>)
        requires
            !(parse_create_topic_response(old(payload)@) is Unparseable),
        ensures
            final(payload)@ == old(payload)@.skip(1),
            result matches Ok(r) && r.success == (old(payload)@[0] == 1),
    {
        let success = payload.get_u8() == 1;
        Ok(Self { success })
    }

    /// Decodes like `decode`, except on an empty payload, which `decode` does
    /// not accept: there it returns `None`.
    pub fn try_decode(payload: &mut ByteReader) -> (result: Option<Result<Self, VortexError>>)
        ensures
            result is None <==> old(payload)@.len() == 0,
            result is None ==> final(payload)@ == old(payload)@,
            result is Some ==> final(payload)@ == old(payload)@.skip(1),
            result is Some ==> (result matches Some(Ok(r)) && r.success == (old(payload)@[0] == 1)),
    {
        if payload.remaining() < 1 {
            None
        } else {
            Some(Self::decode(payload))
        }
    }
}

/// A create-topic response is decoded, whatever follows it, into the same outcome.
pub proof fn lemma_create_topic_response_roundtrip(success: bool, rest: Seq<u8>)
    ensures
        parse_create_topic_response(create_topic_response_payload(success) + rest) == Decoded::<bool>::Parsed(
            success,
            1,
        ),
{
}

// --- ERROR RESPONSE ---

#[derive(Debug, Clone, PartialEq, Eq)]
pub struct ErrorResponse {
    pub code: u16,
    pub message: String,
}

pub struct ErrorResponseView {
    pub code: u16,
    pub message: Seq<char>,
}

impl View for ErrorResponse {
    type V = ErrorResponseView;

    open spec fn view(&self) -> ErrorResponseView {
        ErrorResponseView { code: self.code, message: self.message@ }
    }
}

/// [code: u16][msg_len: u16][message]
pub open spec fn error_response_payload(r: ErrorResponseView) -> Seq<u8> {
    be16(r.code) + topic_field(r.message)
}

pub open spec fn parse_error_response(s: Seq<u8>) -> Decoded<ErrorResponseView> {
    if s.len() < 4 {
        Decoded::Unparseable
    } else {
        let ml = from_be16(s.subrange(2, 4)) as int;
        if s.len() - 4 < ml {
            Decoded::Unparseable
        } else {
            let mb = s.subrange(4, 4 + ml);
            if !valid_utf8(mb) {
                Decoded::Failed(DecodeError::NotUtf8(mb), (4 + ml) as nat)
            } else {
                Decoded::Parsed(
                    ErrorResponseView { code: from_be16(s), message: decode_utf8(mb) },
                    (4 + ml) as nat,
                )
            }
        }
    }
}

impl ErrorResponse {
    pub fn encode(&self, req_id: u32) -> (f: Frame)
        ensures
            f.msg_type == MessageType::ErrorResp,
            f.req_id == req_id,
            f.payload@ == error_response_payload(self@),
    {
        let mut buf: Vec<u8> = Vec::new();
        put_u16(&mut buf, self.code);
        put_topic(&mut buf, &self.message);
        assert(buf@ =~= error_response_payload(self@));
        Frame::new(MessageType::ErrorResp, req_id, buf)
    }

    pub fn decode(payload: &mut ByteReader) -> (result: Result<Self, VortexError>)
        requires
            !(parse_error_response(old(payload)@) is Unparseable),
        ensures
            final(payload)@ == old(payload)@.skip(parse_error_response(old(payload)@).consumed() as int),
            match (parse_error_response(old(payload)@), result) {
                (Decoded::Failed(e, _), Err(err)) => reports_error(e, err),
                (Decoded::Parsed(v, _), Ok(r)) => r@ == v,
                _ => false,
            },
    {
        let ghost s = payload@;
        let code = payload.get_u16();
        let msg_len = payload.get_u16() as usize;
        assert(s.skip(2)[0] == s.subrange(2, 4)[0] && s.skip(2)[1] == s.subrange(2, 4)[1]);
        assert(payload@.take(msg_len as int) =~= s.subrange(4, 4 + msg_len));
        let message = read_text(payload, msg_len)?;
        assert(payload@ =~= s.skip(4 + msg_len));
        Ok(Self { code, message })
    }

    fn runs_past_end(s: &[u8]) -> (r: bool)
        ensures
            r == (parse_error_response(s@) is Unparseable),
    {
        let n = s.len();
        if n < 4 {
            return true;
        }
        let ml = read_u16_at(s, 2) as usize;
        n - 4 < ml
    }

    /// Decodes like `decode`, except on payloads that `decode` does not
    /// accept: there it returns `None` and leaves `payload` as it was.
    pub fn try_decode(payload: &mut ByteReader) -> (result: Option<Result<Self, VortexError>>)
        ensures
            result is None <==> parse_error_response(old(payload)@) is Unparseable,
            result is None ==> final(payload)@ == old(payload)@,
            result is Some ==> final(payload)@ == old(payload)@.skip(
                parse_error_response(old(payload)@).consumed() as int,
            ),
            match (parse_error_response(old(payload)@), result) {
                (Decoded::Failed(e, _), Some(Err(err))) => reports_error(e, err),
                (Decoded::Parsed(v, _), Some(Ok(r))) => r@ == v,
                (Decoded::Unparseable, None) => true,
                _ => false,
            },
    {
        if Self::runs_past_end(payload.chunk()) {
            None
        } else {
            Some(Self::decode(payload))
        }
    }
}

/// An error response whose message fits its 16-bit length field is decoded,
/// whatever follows it, into the same response.
pub proof fn lemma_error_response_roundtrip(r: ErrorResponseView, rest: Seq<u8>)
    requires
        encode_utf8(r.message).len() <= u16::MAX,
    ensures
        parse_error_response(error_response_payload(r) + rest) == Decoded::Parsed(
            r,
            error_response_payload(r).len(),
        ),
{
    let mb = encode_utf8(r.message);
    let ml = mb.len() as int;
    let s = error_response_payload(r) + rest;
    lemma_be16_roundtrip(r.code);
    lemma_topic_roundtrip(r.message, rest);
    assert(s.skip(2) =~= topic_field(r.message) + rest);
    assert(s.subrange(2, 4) =~= be16(ml as u16));
    assert(s.subrange(4, 4 + ml) =~= mb);
}

} // verus!

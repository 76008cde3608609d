//! The client side: how a client reads the broker's replies, and the
//! benchmark's audit of the hash chain of what it fetched back.

pub mod hex;

use vstd::prelude::*;
use vstd::string::*;
use crate::error::VortexError;
use crate::frame::{Frame, MessageType};
use crate::hash::{digest_eq, HashDigest};
use crate::messages::{parse_error_response, reports_error, Decoded, ErrorResponse};
use crate::record::{record_views, Record, RecordView};
use crate::text::{decimal_string, decimal_text};
use crate::wire::ByteReader;

verus! {

/// The text of the error a client reports for an error reply.
pub open spec fn server_error_text(code: u16, message: Seq<char>) -> Seq<char> {
    "Server error ["@ + decimal_text(code as nat) + "]: "@ + message
}

/// Reads a reply: an error reply becomes an I/O error naming the server's
/// code and message; any other reply is handed back. `None` where the error
/// reply's payload cannot be decoded without running past a field's end.
pub fn check_reply(reply: Frame) -> (r: Option<Result<Frame, VortexError>>)
    ensures
        reply.msg_type != MessageType::ErrorResp ==> r == Some(Ok::<Frame, VortexError>(reply)),
        reply.msg_type == MessageType::ErrorResp ==> match (parse_error_response(reply.payload@), r) {
            (Decoded::Unparseable, None) => true,
            (Decoded::Failed(e, _), Some(Err(err))) => reports_error(e, err),
            (Decoded::Parsed(v, _), Some(Err(VortexError::Io(m)))) => m@ == server_error_text(
                v.code,
                v.message,
            ),
            _ => false,
        },
{
    if reply.msg_type != MessageType::ErrorResp {
        return Some(Ok(reply));
    }
    let mut p = ByteReader::new(reply.payload);
    match ErrorResponse::try_decode(&mut p) {
        None => None,
        Some(Err(e)) => Some(Err(e)),
        Some(Ok(err)) => {
            let mut m = String::from_str("Server error [");
            let code = decimal_string(err.code as u64);
            m.append(code.as_str());
            m.append("]: ");
            m.append(err.message.as_str());
            Some(Err(VortexError::Io(m)))
        },
    }
}

/// Each record names its predecessor's hash as its previous hash.
pub open spec fn chain_linked(rs: Seq<RecordView>) -> bool {
    forall|i: int| 0 < i < rs.len() ==> (#[trigger] rs[i]).prev_hash == rs[i - 1].record_hash
}

/// The audit of a hash chain read back batch by batch.
pub struct ChainAudit {
    pub fetched_count: usize,
    pub current_offset: u64,
    pub prev_hash: Option<HashDigest>,
    pub passed: bool,
    /// The offset of the record whose previous hash did not match, if any.
    pub broken_at: Option<u64>,
    /// The last batch fetched was empty: there is nothing more to read.
    pub exhausted: bool,
    /// The records verified so far.
    pub verified: Ghost<Seq<RecordView>>,
}

/// A record that names the last hash of a chain extends the chain.
proof fn lemma_chain_extends(v: Seq<RecordView>, r: RecordView)
    requires
        chain_linked(v),
        v.len() > 0 ==> r.prev_hash == v.last().record_hash,
    ensures
        chain_linked(v.push(r)),
{
    let w = v.push(r);
    assert forall|k: int| 0 < k < w.len() implies (#[trigger] w[k]).prev_hash == w[k - 1].record_hash by {
        if k < v.len() {
            assert(w[k] == v[k]);
        }
        assert(w[k - 1] == v[k - 1]);
    }
}

impl ChainAudit {
    /// The audit's state agrees with the records it has verified: it has
    /// counted them, its offset is past the last of them, its hash is the
    /// last one's, and while it passes they form an unbroken chain.
    pub open spec fn wf(&self) -> bool {
        &&& self.passed ==> chain_linked(self.verified@)
        &&& self.fetched_count == self.verified@.len()
        &&& self.verified@.len() > 0 ==> self.current_offset == self.verified@.last().offset + 1
        &&& match self.prev_hash {
            None => self.verified@.len() == 0,
            Some(h) => self.verified@.len() > 0 && h@ == self.verified@.last().record_hash,
        }
    }

    /// A new audit, reading from offset 0.
    pub fn new() -> (a: Self)
        ensures
            a.wf(),
            a.passed,
            a.verified@.len() == 0,
            a.fetched_count == 0,
            a.current_offset == 0,
            a.prev_hash is None,
            a.broken_at is None,
            !a.exhausted,
    {
        ChainAudit {
            fetched_count: 0,
            current_offset: 0,
            prev_hash: None,
            passed: true,
            broken_at: None,
            exhausted: false,
            verified: Ghost(Seq::empty()),
        }
    }

    /// Checks a fetched batch: each record must name the hash of the one
    /// before it. The first that does not fails the audit and stops it; the
    /// records before it are counted and move the audit's offset past them.
    #[verifier::rlimit(30)]
    pub fn absorb(&mut self, batch: &Vec<Record>)
        requires
            old(self).wf(),
            old(self).passed,
            old(self).fetched_count + batch@.len() <= usize::MAX,
            forall|i: int| 0 <= i < batch@.len() ==> (#[trigger] batch@[i]).offset < u64::MAX,
        ensures
            final(self).wf(),
            final(self).exhausted == (batch@.len() == 0),
            final(self).passed ==> final(self).verified@ == old(self).verified@ + record_views(batch@),
            final(self).passed ==> final(self).broken_at == old(self).broken_at,
            final(self).verified@.len() == old(self).verified@.len() ==> final(self).current_offset
                == old(self).current_offset,
            !final(self).passed ==> ({
                let k = final(self).verified@.len() - old(self).verified@.len();
                &&& 0 <= k < batch@.len()
                &&& final(self).verified@ == old(self).verified@ + record_views(batch@).take(k)
                &&& final(self).broken_at == Some(batch@[k].offset)
                &&& final(self).prev_hash matches Some(h) && batch@[k].prev_hash != h
            }),
    {
        self.exhausted = batch.len() == 0;
        let mut i: usize = 0;
        let ghost start = self.verified@;
        let ghost start_offset = self.current_offset;
        let ghost start_broken = self.broken_at;
        while i < batch.len()
            invariant
                i <= batch@.len(),
                self.wf(),
                self.passed,
                self.broken_at == start_broken,
                self.exhausted == (batch@.len() == 0),
                start == old(self).verified@,
                start_offset == old(self).current_offset,
                start_broken == old(self).broken_at,
                self.verified@ == start + record_views(batch@).take(i as int),
                self.verified@.len() == start.len() + i,
                i == 0 ==> self.current_offset == start_offset,
                start.len() + batch@.len() <= usize::MAX,
                forall|j: int| 0 <= j < batch@.len() ==> (#[trigger] batch@[j]).offset < u64::MAX,
            decreases batch.len() - i,
        {
            let rec = &batch[i];
            match &self.prev_hash {
                Some(prev) => {
                    if !digest_eq(&rec.prev_hash, prev) {
                        self.passed = false;
                        self.broken_at = Some(rec.offset);
                        assert(batch@[i as int].prev_hash != *prev);
                        return;
                    }
                },
                None => {},
            }
            let ghost before = self.verified@;
            self.prev_hash = Some(rec.record_hash);
            self.current_offset = rec.offset + 1;
            self.fetched_count = self.fetched_count + 1;
            self.verified = Ghost(before.push(rec@));
            assert(self.verified@.last() == rec@);
            proof {
                assert(record_views(batch@).take(i + 1) =~= record_views(batch@).take(i as int).push(rec@));
                lemma_chain_extends(before, rec@);
            }
            i = i + 1;
        }
        assert(record_views(batch@).take(i as int) =~= record_views(batch@));
    }

    /// The offset to fetch the next batch from, if the audit goes on: while
    /// it passes, the last batch was not empty and fewer than `total` records
    /// have been verified.
    pub fn next_fetch(&self, total: usize) -> (r: Option<u64>)
        ensures
            r == (if self.passed && !self.exhausted && self.fetched_count < total {
                Some(self.current_offset)
            } else {
                None
            }),
    {
        if self.passed && !self.exhausted && self.fetched_count < total {
            Some(self.current_offset)
        } else {
            None
        }
    }

    /// Whether the audit passed: the chain is unbroken and all `total`
    /// records were verified.
    pub fn complete(&self, total: usize) -> (r: bool)
        ensures
            r == (self.passed && self.fetched_count == total),
    {
        self.passed && self.fetched_count == total
    }
}

/// The index of the `percent`th percentile in `count` sorted samples.
pub fn percentile_index(count: usize, percent: usize) -> (i: usize)
    requires
        count * percent <= usize::MAX,
    ensures
        i == count * percent / 100,
{
    count * percent / 100
}

/// The number of messages between two progress reports: a fifth of the run,
/// and at least one.
pub open spec fn progress_step(total: int) -> int {
    if total / 5 > 1 { total / 5 } else { 1 }
}

/// Whether the benchmark reports progress after sending message `i` (from
/// zero) of `total`: after each fifth of the run, and after the last message.
pub fn reports_progress(i: usize, total: usize) -> (r: bool)
    requires
        i < total,
    ensures
        r == ((i + 1) % progress_step(total as int) == 0 || i + 1 == total),
{
    let step = if total / 5 > 1 {
        total / 5
    } else {
        1
    };
    (i + 1) % step == 0 || i + 1 == total
}

} // verus!

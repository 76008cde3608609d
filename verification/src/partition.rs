//! Partition logs: a partition's run of segments, of which the last is the
//! active one that takes appends, and reads across segment boundaries.

use vstd::prelude::*;
use vstd::string::*;
use crate::hash::{compute_genesis_hash, genesis_digest, HashDigest};
use crate::record::{opt_vec, record_views, Record, RecordView};
use crate::error::VortexError;
use crate::segment::{
    appended, append_writes, can_append, file_action_for, file_holds, open_outcome, reports_open_error,
    write_views, FileWrite, RecoverOutcome, Segment, SegmentFile, SegmentView,
};
use crate::text::{decimal_string, decimal_text, padded_decimal_string, padded_decimal_text};

verus! {

/// 64 MB
pub const DEFAULT_MAX_SEGMENT_BYTES: u64 = 64 * 1024 * 1024;

/// A topic partition's log.
pub struct PartitionLog {
    pub topic: String,
    pub partition_id: u32,
    pub max_segment_bytes: u64,
    pub segments: Vec<Segment>,
}

// --- Segment files in a partition directory ---

/// Byte-wise lexicographic order, as file names are ordered.
pub open spec fn bytes_le(a: Seq<u8>, b: Seq<u8>) -> bool
    decreases a.len(),
{
    if a.len() == 0 {
        true
    } else if b.len() == 0 {
        false
    } else if a[0] != b[0] {
        a[0] < b[0]
    } else {
        bytes_le(a.drop_first(), b.drop_first())
    }
}

proof fn lemma_bytes_le_total(a: Seq<u8>, b: Seq<u8>)
    ensures
        bytes_le(a, b) || bytes_le(b, a),
    decreases a.len(),
{
    if a.len() > 0 && b.len() > 0 && a[0] == b[0] {
        lemma_bytes_le_total(a.drop_first(), b.drop_first());
    }
}

proof fn lemma_bytes_le_reflexive(a: Seq<u8>)
    ensures
        bytes_le(a, a),
    decreases a.len(),
{
    if a.len() > 0 {
        lemma_bytes_le_reflexive(a.drop_first());
    }
}

proof fn lemma_bytes_le_transitive(a: Seq<u8>, b: Seq<u8>, c: Seq<u8>)
    requires
        bytes_le(a, b),
        bytes_le(b, c),
    ensures
        bytes_le(a, c),
    decreases a.len(),
{
    if a.len() > 0 && b.len() > 0 && c.len() > 0 && a[0] == b[0] && b[0] == c[0] {
        lemma_bytes_le_transitive(a.drop_first(), b.drop_first(), c.drop_first());
    }
}

fn bytes_leq(a: &Vec<u8>, b: &Vec<u8>) -> (r: bool)
    ensures
        r == bytes_le(a@, b@),
{
    let mut i: usize = 0;
    assert(a@.skip(0) =~= a@);
    assert(b@.skip(0) =~= b@);
    while i < a.len() && i < b.len()
        invariant
            i <= a@.len(),
            i <= b@.len(),
            bytes_le(a@, b@) == bytes_le(a@.skip(i as int), b@.skip(i as int)),
        decreases a.len() - i,
    {
        if a[i] != b[i] {
            assert(a@.skip(i as int)[0] == a[i as int]);
            assert(b@.skip(i as int)[0] == b[i as int]);
            return a[i] < b[i];
        }
        assert(a@.skip(i as int).drop_first() =~= a@.skip(i + 1));
        assert(b@.skip(i as int).drop_first() =~= b@.skip(i + 1));
        i = i + 1;
    }
    i == a.len()
}

/// A file name's extension is `vtx`: it ends in `.vtx` and the dot is not
/// its first character.
pub open spec fn is_segment_file(name: Seq<u8>) -> bool {
    name.len() > 4 && name.subrange(name.len() - 4, name.len() as int) == seq![46u8, 118, 116, 120]
}

/// The value of decimal digits.
pub open spec fn digits_value(d: Seq<u8>) -> int
    decreases d.len(),
{
    if d.len() == 0 {
        0
    } else {
        digits_value(d.drop_last()) * 10 + (d.last() - 48)
    }
}

pub open spec fn all_digits(d: Seq<u8>) -> bool {
    forall|i: int| 0 <= i < d.len() ==> 48 <= #[trigger] d[i] <= 57
}

/// What `str::parse::<u64>` makes of text: an optional `+`, then one or
/// more decimal digits, whose value fits in 64 bits.
pub open spec fn parse_u64_text(s: Seq<u8>) -> Option<u64> {
    let d = if s.len() > 1 && s[0] == 43u8 {
        s.drop_first()
    } else {
        s
    };
    if d.len() == 0 || !all_digits(d) || digits_value(d) > u64::MAX {
        None
    } else {
        Some(digits_value(d) as u64)
    }
}

/// The base offset named by a segment file: its stem read as a number, or 0.
pub open spec fn segment_file_base(name: Seq<u8>) -> u64 {
    match parse_u64_text(name.subrange(0, name.len() - 4)) {
        Some(v) => v,
        None => 0,
    }
}

proof fn lemma_digits_value_grows(d: Seq<u8>, i: int, j: int)
    requires
        0 <= i <= j <= d.len(),
        all_digits(d),
    ensures
        0 <= digits_value(d.take(i)) <= digits_value(d.take(j)),
    decreases j - i,
{
    if i < j {
        lemma_digits_value_grows(d, i, j - 1);
        assert(d.take(j).drop_last() =~= d.take(j - 1));
        assert(d.take(j).last() == d[j - 1]);
        assert(digits_value(d.take(j - 1)) >= 0);
    } else {
        lemma_digits_value_nonneg(d.take(i));
    }
}

proof fn lemma_digits_value_nonneg(d: Seq<u8>)
    requires
        all_digits(d),
    ensures
        digits_value(d) >= 0,
    decreases d.len(),
{
    if d.len() > 0 {
        lemma_digits_value_nonneg(d.drop_last());
    }
}

fn parse_u64(s: &[u8]) -> (r: Option<u64>)
    ensures
        r == parse_u64_text(s@),
{
    let start: usize = if s.len() > 1 && s[0] == 43u8 {
        1
    } else {
        0
    };
    let ghost d = if s@.len() > 1 && s@[0] == 43u8 {
        s@.drop_first()
    } else {
        s@
    };
    assert(d =~= s@.skip(start as int));
    assert(parse_u64_text(s@) == (if d.len() == 0 || !all_digits(d) || digits_value(d) > u64::MAX {
        None
    } else {
        Some(digits_value(d) as u64)
    }));
    if s.len() - start == 0 {
        return None;
    }
    let mut v: u64 = 0;
    let mut i: usize = start;
    while i < s.len()
        invariant
            start <= i <= s@.len(),
            d == s@.skip(start as int),
            d.len() > 0,
            parse_u64_text(s@) == (if !all_digits(d) || digits_value(d) > u64::MAX {
                None
            } else {
                Some(digits_value(d) as u64)
            }),
            all_digits(d.take(i - start)),
            v as int == digits_value(d.take(i - start)),
        decreases s.len() - i,
    {
        let c = s[i];
        assert(d[i - start] == c);
        if c < 48 || c > 57 {
            assert(!(48 <= d[i - start] <= 57));
            assert(!all_digits(d));
            return None;
        }
        assert(d.take(i + 1 - start).drop_last() =~= d.take(i - start));
        assert(d.take(i + 1 - start).last() == c);
        assert(all_digits(d.take(i + 1 - start)));
        if v > (u64::MAX - (c - 48) as u64) / 10 {
            proof {
                assert(digits_value(d.take(i + 1 - start)) > u64::MAX);
                if all_digits(d) {
                    lemma_digits_value_grows(d, i + 1 - start, d.len() as int);
                    assert(d.take(d.len() as int) =~= d);
                }
            }
            return None;
        }
        v = v * 10 + (c - 48) as u64;
        i = i + 1;
    }
    assert(d.take(i - start) =~= d);
    Some(v)
}

/// The file name of the segment with the given base offset: the offset in
/// 20 decimal digits, then `.vtx`.
pub open spec fn segment_file_name_text(base_offset: u64) -> Seq<char> {
    padded_decimal_text(base_offset as nat, 20) + ".vtx"@
}

/// The file name of the segment with the given base offset.
pub fn segment_file_name(base_offset: u64) -> (name: String)
    ensures
        name@ == segment_file_name_text(base_offset),
{
    let mut name = padded_decimal_string(base_offset, 20);
    name.append(".vtx");
    name
}

/// The directory name of a partition within its topic's directory.
pub fn partition_dir_name(partition_id: u32) -> (name: String)
    ensures
        name@ == "partition-"@ + decimal_text(partition_id as nat),
{
    let mut name = String::from_str("partition-");
    let digits = decimal_string(partition_id as u64);
    name.append(digits.as_str());
    name
}

/// The names are in file-name order.
pub open spec fn names_sorted(s: Seq<Seq<u8>>) -> bool {
    forall|i: int, j: int| 0 <= i < j < s.len() ==> bytes_le(#[trigger] s[i], #[trigger] s[j])
}

/// The names of the segment files among `names`, in file-name order.
pub open spec fn sorted_segment_files(names: Seq<Seq<u8>>, sorted: Seq<Seq<u8>>) -> bool {
    &&& names_sorted(sorted)
    &&& sorted.to_multiset() == names.filter(|n: Seq<u8>| is_segment_file(n)).to_multiset()
}

/// The contents of a sequence of byte buffers.
pub open spec fn vec_views(v: Seq<Vec<u8>>) -> Seq<Seq<u8>> {
    v.map_values(|b: Vec<u8>| b@)
}

/// Inserts `name` into the sorted `out` after every name that orders at or before it.
fn insert_sorted(out: &mut Vec<Vec<u8>>, name: Vec<u8>)
    requires
        names_sorted(vec_views(old(out)@)),
    ensures
        names_sorted(vec_views(final(out)@)),
        vec_views(final(out)@).to_multiset() == vec_views(old(out)@).to_multiset().insert(name@),
        exists|j: int|
            0 <= j <= old(out)@.len() && vec_views(final(out)@) == vec_views(old(out)@).insert(
                j,
                name@,
            ),
{
    let ghost before = vec_views(out@);
    let mut j: usize = 0;
    while j < out.len() && bytes_leq(&out[j], &name)
        invariant
            j <= out@.len(),
            before == vec_views(out@),
            forall|k: int| 0 <= k < j ==> bytes_le(#[trigger] before[k], name@),
        decreases out.len() - j,
    {
        assert(before[j as int] == out@[j as int]@);
        j = j + 1;
    }
    let ghost nv = name@;
    out.insert(j, name);
    proof {
        let after = vec_views(out@);
        assert(after =~= before.insert(j as int, nv));
        vstd::seq_lib::to_multiset_insert(before, j as int, nv);
        if j < before.len() {
            assert(before[j as int] == old(out)@[j as int]@);
            assert(!bytes_le(before[j as int], nv));
            lemma_bytes_le_total(before[j as int], nv);
        }
        assert forall|a: int, b: int| 0 <= a < b < after.len() implies bytes_le(
            #[trigger] after[a],
            #[trigger] after[b],
        ) by {
            if a == j && b > j {
                if b - 1 > j {
                    assert(bytes_le(before[j as int], before[b - 1]));
                    lemma_bytes_le_transitive(nv, before[j as int], before[b - 1]);
                }
            } else if a < j && b > j {
                assert(bytes_le(before[a], before[b - 1]));
            } else if a > j {
                assert(bytes_le(before[a - 1], before[b - 1]));
            } else if b < j {
                assert(bytes_le(before[a], before[b]));
            }
        }
    }
}

impl PartitionLog {
    /// The base offsets of the segments a partition opens, in order: the
    /// segment files among `file_names` (the names in the partition's
    /// directory) in file-name order, each read as the number its stem spells
    /// (0 where it spells none), or the single base offset 0 when there is no
    /// segment file. Each segment is opened from the file that
    /// `segment_file_name` names for its base offset.
    pub fn segment_bases(file_names: &Vec<Vec<u8>>) -> (bases: Vec<u64>)
        ensures
            exists|sorted: Seq<Seq<u8>>|
                sorted_segment_files(vec_views(file_names@), sorted) && if sorted.len() == 0 {
                    bases@ == seq![0u64]
                } else {
                    bases@ == sorted.map_values(|n: Seq<u8>| segment_file_base(n))
                },
    {
        let mut sorted: Vec<Vec<u8>> = Vec::new();
        let ghost names = vec_views(file_names@);
        proof {
            reveal(Seq::filter);
            assert(names.take(0) =~= Seq::<Seq<u8>>::empty());
            assert(names.take(0).filter(|n: Seq<u8>| is_segment_file(n)) =~= Seq::<Seq<u8>>::empty());
            assert(vec_views(sorted@) =~= Seq::<Seq<u8>>::empty());
        }
        let mut i: usize = 0;
        while i < file_names.len()
            invariant
                i <= file_names@.len(),
                names == vec_views(file_names@),
                names_sorted(vec_views(sorted@)),
                vec_views(sorted@).to_multiset() == names.take(i as int).filter(|n: Seq<u8>| is_segment_file(n)).to_multiset(),
                forall|j: int| 0 <= j < sorted@.len() ==> is_segment_file(#[trigger] sorted@[j]@),
            decreases file_names.len() - i,
        {
            let name = &file_names[i];
            let n = name.len();
            let is_vtx = n > 4 && name[n - 4] == 46u8 && name[n - 3] == 118u8 && name[n - 2] == 116u8
                && name[n - 1] == 120u8;
            proof {
                assert(names[i as int] == name@);
                assert(names.take(i + 1).drop_last() =~= names.take(i as int));
                assert(names.take(i + 1).last() == name@);
                reveal(Seq::filter);
                if is_segment_file(name@) {
                    vstd::seq_lib::to_multiset_build(names.take(i as int).filter(|n: Seq<u8>| is_segment_file(n)), name@);
                }
                if n > 4 {
                    let t = name@.subrange(n - 4, n as int);
                    if is_vtx {
                        assert(t =~= seq![46u8, 118, 116, 120]);
                    }
                    if t == seq![46u8, 118, 116, 120] {
                        assert(t[0] == 46u8 && t[1] == 118u8 && t[2] == 116u8 && t[3] == 120u8);
                    }
                }
                assert(is_vtx == is_segment_file(name@));
            }
            if is_vtx {
                let ghost old_sorted = vec_views(sorted@);
                let ghost old_sorted_vec = sorted@;
                let copy = name.clone();
                assert(copy@ =~= name@);
                insert_sorted(&mut sorted, copy);
                proof {
                    let jj = choose|jj: int|
                        0 <= jj <= old_sorted.len() && vec_views(sorted@) == old_sorted.insert(
                            jj,
                            name@,
                        );
                    old_sorted.insert_ensures(jj, name@);
                    assert forall|k: int| 0 <= k < sorted@.len() implies is_segment_file(
                        #[trigger] sorted@[k]@,
                    ) by {
                        assert(vec_views(sorted@)[k] == sorted@[k]@);
                        if k > jj {
                            assert(old_sorted.insert(jj, name@)[(k - 1) + 1] == old_sorted[k - 1]);
                            assert(old_sorted[k - 1] == old_sorted_vec[k - 1]@);
                        } else if k < jj {
                            assert(old_sorted[k] == old_sorted_vec[k]@);
                        }
                    }
                }
            }
            i = i + 1;
        }
        assert(names.take(file_names@.len() as int) =~= names);
        let mut bases: Vec<u64> = Vec::new();
        if sorted.len() == 0 {
            bases.push(0);
        } else {
            let mut k: usize = 0;
            while k < sorted.len()
                invariant
                    k <= sorted@.len(),
                    forall|j: int| 0 <= j < sorted@.len() ==> is_segment_file(#[trigger] sorted@[j]@),
                    bases@ == vec_views(sorted@).take(k as int).map_values(|n: Seq<u8>| segment_file_base(n)),
                decreases sorted.len() - k,
            {
                let name = &sorted[k];
                let stem = vstd::slice::slice_subrange(name.as_slice(), 0, name.len() - 4);
                let base = match parse_u64(stem) {
                    Some(v) => v,
                    None => 0,
                };
                bases.push(base);
                k = k + 1;
                assert(bases@ =~= vec_views(sorted@).take(k as int).map_values(|n: Seq<u8>| segment_file_base(n)));
            }
            assert(vec_views(sorted@).take(sorted@.len() as int) =~= vec_views(sorted@));
        }
        bases
    }
}


/// Each segment after the first starts where the one before it ended: its
/// genesis hash is the last hash of its predecessor.
pub open spec fn chained(segments: Seq<Segment>) -> bool {
    forall|i: int|
        0 < i < segments.len() ==> (#[trigger] segments[i]).genesis_hash@ == segments[i
            - 1].last_record_hash@ && segments[i].base_offset == segments[i - 1].next_offset
}

/// The views of a sequence of segments.
pub open spec fn segment_views(ss: Seq<Segment>) -> Seq<SegmentView> {
    ss.map_values(|s: Segment| s@)
}

/// What opening a partition's segments finds.
pub enum PartitionOpen {
    /// A segment file holds a record that cannot be decoded.
    Unparseable,
    /// Opening a segment file fails this way.
    Failed(RecoverOutcome),
    /// The segments, in order.
    Opened(Seq<SegmentView>),
}

/// Opens the segments with base offsets `bases` from files with contents
/// `contents`, in order: the first chains from `genesis`, each later one
/// from the last hash of the one before it. The first failure stops it.
pub open spec fn open_segments(bases: Seq<u64>, contents: Seq<Seq<u8>>, genesis: Seq<u8>) -> PartitionOpen
    decreases bases.len(),
{
    if bases.len() == 0 || contents.len() == 0 {
        PartitionOpen::Opened(seq![])
    } else {
        match open_outcome(contents[0], bases[0], genesis) {
            RecoverOutcome::Recovered(v, _) => match open_segments(
                bases.drop_first(),
                contents.drop_first(),
                v.last_record_hash,
            ) {
                PartitionOpen::Opened(vs) => PartitionOpen::Opened(seq![v] + vs),
                other => other,
            },
            RecoverOutcome::Unparseable => PartitionOpen::Unparseable,
            other => PartitionOpen::Failed(other),
        }
    }
}

/// Segments `vs` opened first, then what `rest` finds.
pub open spec fn then_open(vs: Seq<SegmentView>, rest: PartitionOpen) -> PartitionOpen {
    match rest {
        PartitionOpen::Opened(ws) => PartitionOpen::Opened(vs + ws),
        other => other,
    }
}

/// The hash the `k`th segment chains from: `genesis` for the first, else the
/// last hash of the one before it.
pub open spec fn chain_start(segments: Seq<Segment>, k: int, genesis: Seq<u8>) -> Seq<u8> {
    if k == 0 {
        genesis
    } else {
        segments[k - 1].last_record_hash@
    }
}

/// The state a segment is recovered in: the same, with a fresh checkpoint interval.
pub open spec fn reopened(v: SegmentView) -> SegmentView {
    SegmentView { bytes_since_last_index: 0, ..v }
}

/// Reopening a partition gives back its segments: when each file holds its
/// segment, opening the files in order recovers the same segments (offsets,
/// hashes, data positions and indexes), each with a fresh checkpoint
/// interval, so that the next append chains onto the last record.
pub proof fn lemma_reopen_partition(
    bases: Seq<u64>,
    contents: Seq<Seq<u8>>,
    segments: Seq<SegmentView>,
    genesis: Seq<u8>,
)
    requires
        bases.len() == contents.len(),
        contents.len() == segments.len(),
        forall|k: int| 0 <= k < contents.len() ==> file_holds(#[trigger] contents[k], segments[k]),
    ensures
        open_segments(bases, contents, genesis) == PartitionOpen::Opened(
            segments.map_values(|v: SegmentView| reopened(v)),
        ),
    decreases bases.len(),
{
    if bases.len() == 0 {
        assert(segments.map_values(|v: SegmentView| reopened(v)) =~= Seq::<SegmentView>::empty());
    } else {
        assert(file_holds(contents[0], segments[0]));
        let v = reopened(segments[0]);
        assert(open_outcome(contents[0], bases[0], genesis) == RecoverOutcome::Recovered(v, None));
        assert forall|k: int| 0 <= k < contents.drop_first().len() implies file_holds(
            #[trigger] contents.drop_first()[k],
            segments.drop_first()[k],
        ) by {
            assert(file_holds(contents[k + 1], segments[k + 1]));
        }
        lemma_reopen_partition(bases.drop_first(), contents.drop_first(), segments.drop_first(), v.last_record_hash);
        assert(seq![v] + segments.drop_first().map_values(|w: SegmentView| reopened(w)) =~= segments.map_values(
            |w: SegmentView| reopened(w),
        ));
    }
}

impl PartitionLog {
    /// Opens a partition log from the contents of its segment files:
    /// `contents[k]` is the file named for `bases[k]` (see `segment_bases`),
    /// empty when there is none. The segments are opened in order, the first
    /// chained from the partition's genesis hash and each later one from the
    /// last hash of the one before it; with them comes what to do to each file.
    /// `None` where a file holds a record that cannot be decoded.
    pub fn open_or_create(
        topic: &str,
        partition_id: u32,
        max_segment_bytes: u64,
        bases: &Vec<u64>,
        contents: &Vec<Vec<u8>>,
    ) -> (r: Option<Result<(Self, Vec<SegmentFile>), VortexError>>)
        requires
            bases@.len() == contents@.len(),
        ensures
            match (open_segments(bases@, vec_views(contents@), genesis_digest(topic@, partition_id)), r) {
                (PartitionOpen::Unparseable, None) => true,
                (PartitionOpen::Failed(o), Some(Err(e))) => reports_open_error(o, e),
                (PartitionOpen::Opened(vs), Some(Ok((log, files)))) => {
                    &&& log.topic@ == topic@
                    &&& log.partition_id == partition_id
                    &&& log.max_segment_bytes == max_segment_bytes
                    &&& segment_views(log.segments@) == vs
                    &&& files@.len() == bases@.len()
                    &&& forall|k: int|
                        0 <= k < files@.len() ==> file_action_for(
                            #[trigger] files@[k],
                            contents@[k]@,
                            bases@[k],
                            chain_start(log.segments@, k, genesis_digest(topic@, partition_id)),
                        )
                },
                _ => false,
            },
    {
        let ghost g0 = genesis_digest(topic@, partition_id);
        let ghost all = open_segments(bases@, vec_views(contents@), g0);
        let mut genesis = compute_genesis_hash(topic, partition_id);
        let mut segments: Vec<Segment> = Vec::new();
        let mut files: Vec<SegmentFile> = Vec::new();
        let n = bases.len();
        let mut i: usize = 0;
        proof {
            assert(bases@.skip(0) =~= bases@);
            assert(vec_views(contents@).skip(0) =~= vec_views(contents@));
            assert(segment_views(segments@) =~= Seq::<SegmentView>::empty());
        }
        while i < n
            invariant
                i <= n,
                n == bases@.len(),
                n == contents@.len(),
                segments@.len() == i,
                files@.len() == i,
                genesis@ == chain_start(segments@, i as int, g0),
                g0 == genesis_digest(topic@, partition_id),
                all == open_segments(bases@, vec_views(contents@), g0),
                all == then_open(
                    segment_views(segments@),
                    open_segments(bases@.skip(i as int), vec_views(contents@).skip(i as int), genesis@),
                ),
                forall|k: int|
                    0 <= k < i ==> file_action_for(
                        #[trigger] files@[k],
                        contents@[k]@,
                        bases@[k],
                        chain_start(segments@, k, g0),
                    ),
            decreases n - i,
        {
            let ghost rest_b = bases@.skip(i as int);
            let ghost rest_c = vec_views(contents@).skip(i as int);
            assert(rest_b[0] == bases@[i as int]);
            assert(rest_c[0] == contents@[i as int]@);
            assert(rest_b.drop_first() =~= bases@.skip(i + 1));
            assert(rest_c.drop_first() =~= vec_views(contents@).skip(i + 1));
            match Segment::open_segment_file(contents[i].as_slice(), bases[i], genesis) {
                None => {
                    assert(rest_b.len() > 0 && rest_c.len() > 0);
                    assert(open_segments(rest_b, rest_c, genesis@) == PartitionOpen::Unparseable);
                    return None;
                },
                Some(Err(e)) => {
                    assert(rest_b.len() > 0 && rest_c.len() > 0);
                    let ghost o = open_outcome(rest_c[0], rest_b[0], genesis@);
                    assert(open_segments(rest_b, rest_c, genesis@) == PartitionOpen::Failed(o));
                    return Some(Err(e));
                },
                Some(Ok((seg, a))) => {
                    let ghost before = segments@;
                    let ghost v = seg@;
                    genesis = seg.last_record_hash;
                    segments.push(seg);
                    files.push(a);
                    proof {
                        assert(segment_views(segments@) =~= segment_views(before) + seq![v]);
                        assert(segment_views(before) + (seq![v] + seq![]) =~= segment_views(before)
                            + seq![v]);
                        assert forall|k: int| 0 <= k <= i implies chain_start(segments@, k, g0)
                            == chain_start(before, k, g0) by {
                            if k > 0 {
                                assert(segments@[k - 1] == before[k - 1]);
                            }
                        }
                        assert forall|ws: Seq<SegmentView>|
                            segment_views(before) + (seq![v] + ws) =~= segment_views(segments@) + ws by {}
                    }
                    i = i + 1;
                },
            }
        }
        proof {
            assert(bases@.skip(n as int) =~= Seq::<u64>::empty());
            assert(segment_views(segments@) + seq![] =~= segment_views(segments@));
        }
        let log = PartitionLog {
            topic: String::from_str(topic),
            partition_id,
            max_segment_bytes,
            segments,
        };
        Some(Ok((log, files)))
    }
}

/// What appending does first.
pub enum AppendStep {
    /// The active segment is full: the log rolls over to a new segment at
    /// `base_offset`, chained from `genesis_hash`, whose file is read first.
    Roll { base_offset: u64, genesis_hash: HashDigest },
    /// The event goes to the active segment.
    Append,
}

/// The active segment has reached the size at which appends roll over.
pub open spec fn rolls(log: PartitionLog) -> bool {
    log.segments@.last().current_data_position >= log.max_segment_bytes
}

/// What opening the successor of the active segment from a file with
/// contents `contents` finds.
pub open spec fn successor_outcome(log: PartitionLog, contents: Seq<u8>) -> RecoverOutcome {
    open_outcome(contents, log.segments@.last().next_offset, log.segments@.last().last_record_hash@)
}

/// The successor opened from `contents`, if it opens, starts at the active
/// segment's next offset, chained from its last hash, and ends at or after
/// where it starts (as a new segment always does).
pub open spec fn successor_chains(log: PartitionLog, contents: Seq<u8>) -> bool {
    successor_outcome(log, contents) matches RecoverOutcome::Recovered(v, _) ==> {
        &&& v.base_offset == log.segments@.last().next_offset
        &&& v.genesis_hash == log.segments@.last().last_record_hash@
        &&& v.base_offset <= v.next_offset
    }
}

/// The segment an append puts its record into: the active one, or the
/// successor after a roll, if it opens.
pub open spec fn append_target(log: PartitionLog, successor: Seq<u8>) -> Option<SegmentView> {
    if rolls(log) {
        match successor_outcome(log, successor) {
            RecoverOutcome::Recovered(v, _) => Some(v),
            _ => None,
        }
    } else {
        Some(log.segments@.last()@)
    }
}

/// The record fits the segment it goes into (see `can_append`).
pub open spec fn room_to_append(log: PartitionLog, key: Option<Seq<u8>>, value: Seq<u8>, successor: Seq<u8>) -> bool {
    match append_target(log, successor) {
        Some(t) => can_append(t, key, value),
        None => true,
    }
}

impl PartitionLog {
    /// The hash the next segment to open chains from: the last hash of the
    /// last segment, or the partition's genesis hash when there is none.
    pub fn genesis_for_next(&self) -> (h: HashDigest)
        ensures
            self.segments@.len() == 0 ==> h@ == genesis_digest(self.topic@, self.partition_id),
            self.segments@.len() > 0 ==> h == self.segments@.last().last_record_hash,
    {
        if self.segments.len() == 0 {
            compute_genesis_hash(self.topic.as_str(), self.partition_id)
        } else {
            self.segments[self.segments.len() - 1].last_record_hash
        }
    }

    /// Adds an opened segment at the end of the log.
    pub fn push_segment(&mut self, segment: Segment)
        ensures
            final(self).segments@ == old(self).segments@.push(segment),
            final(self).topic == old(self).topic,
            final(self).partition_id == old(self).partition_id,
            final(self).max_segment_bytes == old(self).max_segment_bytes,
    {
        self.segments.push(segment);
    }

    /// Returns the next offset that will be assigned to an incoming message.
    pub fn next_offset(&self) -> (n: u64)
        requires
            self.segments@.len() > 0,
        ensures
            n == self.segments@.last().next_offset,
    {
        self.active_segment().next_offset
    }

    /// Returns a reference to the current active segment.
    pub fn active_segment(&self) -> (s: &Segment)
        requires
            self.segments@.len() > 0,
        ensures
            *s == self.segments@.last(),
    {
        &self.segments[self.segments.len() - 1]
    }

    /// Returns a mutable reference to the current active segment.
    pub fn active_segment_mut(&mut self) -> (s: &mut Segment)
        requires
            old(self).segments@.len() > 0,
        ensures
            *s == old(self).segments@.last(),
            final(self).segments@ == old(self).segments@.update(
                old(self).segments@.len() - 1,
                *final(s),
            ),
            final(self).topic == old(self).topic,
            final(self).partition_id == old(self).partition_id,
            final(self).max_segment_bytes == old(self).max_segment_bytes,
    {
        let last = self.segments.len() - 1;
        &mut self.segments[last]
    }

    /// What appending does first: roll over to a new segment when the
    /// active one has reached `max_segment_bytes` (see `rolls`), else append.
    pub fn append_step(&self) -> (s: AppendStep)
        requires
            self.segments@.len() > 0,
        ensures
            rolls(*self) ==> s == (AppendStep::Roll {
                base_offset: self.segments@.last().next_offset,
                genesis_hash: self.segments@.last().last_record_hash,
            }),
            !rolls(*self) ==> s is Append,
    {
        let active = self.active_segment();
        if active.size() >= self.max_segment_bytes {
            AppendStep::Roll { base_offset: active.next_offset, genesis_hash: active.last_record_hash }
        } else {
            AppendStep::Append
        }
    }

    /// Whether an event with this key and value fits the segment it goes into,
    /// `successor` being the file `append` would roll over to (see `room_to_append`).
    pub fn has_room(&self, key: &Option<Vec<u8>>, value: &Vec<u8>, successor: &[u8]) -> (ok: bool)
        requires
            self.segments@.len() > 0,
        ensures
            ok == room_to_append(*self, opt_vec(*key), value@, successor@),
    {
        let active = self.active_segment();
        if active.size() >= self.max_segment_bytes {
            match Segment::open_segment_file(successor, active.next_offset, active.last_record_hash) {
                Some(Ok((segment, _))) => segment.has_room_for(key, value),
                _ => true,
            }
        } else {
            active.has_room_for(key, value)
        }
    }

    /// Rolls over to a new segment: the one opened, from a file with contents
    /// `contents` (empty when there is none), at the active segment's next
    /// offset and chained from its last hash, becomes the active segment.
    /// Returns what to do to the new segment's file. `None` where the file
    /// holds a record that cannot be decoded; on `None` or an error the log
    /// is as it was.
    pub fn roll_segment(&mut self, contents: &[u8]) -> (r: Option<Result<SegmentFile, VortexError>>)
        requires
            old(self).segments@.len() > 0,
        ensures
            match (successor_outcome(*old(self), contents@), r) {
                (RecoverOutcome::Unparseable, None) => *final(self) == *old(self),
                (RecoverOutcome::Recovered(v, _), Some(Ok(a))) => {
                    &&& final(self).segments@.len() == old(self).segments@.len() + 1
                    &&& final(self).segments@.drop_last() == old(self).segments@
                    &&& final(self).segments@.last()@ == v
                    &&& file_action_for(
                        a,
                        contents@,
                        old(self).segments@.last().next_offset,
                        old(self).segments@.last().last_record_hash@,
                    )
                    &&& final(self).topic == old(self).topic
                    &&& final(self).partition_id == old(self).partition_id
                    &&& final(self).max_segment_bytes == old(self).max_segment_bytes
                },
                (o, Some(Err(e))) => reports_open_error(o, e) && *final(self) == *old(self),
                _ => false,
            },
            chained(old(self).segments@) && successor_chains(*old(self), contents@) ==> chained(
                final(self).segments@,
            ),
            segments_ordered(old(self).segments@) && successor_chains(*old(self), contents@)
                ==> segments_ordered(final(self).segments@),
    {
        let active = self.active_segment();
        let base = active.next_offset;
        let genesis = active.last_record_hash;
        match Segment::open_segment_file(contents, base, genesis) {
            None => None,
            Some(Err(e)) => Some(Err(e)),
            Some(Ok((segment, a))) => {
                let ghost before = self.segments@;
                self.push_successor(segment);
                assert(self.segments@.drop_last() =~= before);
                Some(Ok(a))
            },
        }
    }

    /// Adds `successor` after the active segment. One that starts at the
    /// active segment's next offset, chained from its last hash, keeps the
    /// log chained.
    fn push_successor(&mut self, successor: Segment)
        requires
            old(self).segments@.len() > 0,
        ensures
            final(self).segments@ == old(self).segments@.push(successor),
            final(self).topic == old(self).topic,
            final(self).partition_id == old(self).partition_id,
            final(self).max_segment_bytes == old(self).max_segment_bytes,
            chained(old(self).segments@) && successor.base_offset == old(self).segments@.last().next_offset
                && successor.genesis_hash == old(self).segments@.last().last_record_hash ==> chained(
                final(self).segments@,
            ),
            segments_ordered(old(self).segments@) && successor.base_offset <= successor.next_offset
                ==> segments_ordered(final(self).segments@),
    {
        self.segments.push(successor);
        assert(forall|i: int| 0 <= i < old(self).segments@.len() ==> self.segments@[i] == old(self).segments@[i]);
        proof {
            let old_segs = old(self).segments@;
            let segs = self.segments@;
            if chained(old_segs) && successor.base_offset == old_segs.last().next_offset
                && successor.genesis_hash == old_segs.last().last_record_hash {
                assert forall|i: int| 0 < i < segs.len() implies (#[trigger] segs[i]).genesis_hash@
                    == segs[i - 1].last_record_hash@ && segs[i].base_offset == segs[i - 1].next_offset by {
                    if i < old_segs.len() {
                        assert(segs[i] == old_segs[i]);
                    }
                    assert(segs[i - 1] == old_segs[i - 1]);
                }
            }
        }
    }

    /// Appends a new event to the active segment, stamped with the current
    /// time (see `Segment::append`).
    fn append_to_active(&mut self, key: Option<Vec<u8>>, value: Vec<u8>) -> (r: (Record, Vec<FileWrite>))
        requires
            old(self).segments@.len() > 0,
            can_append(old(self).segments@.last()@, opt_vec(key), value@),
        ensures
            final(self).segments@.len() == old(self).segments@.len(),
            forall|i: int| 0 <= i < old(self).segments@.len() - 1 ==> final(self).segments@[i] == old(self).segments@[i],
            final(self).segments@.last()@ == appended(old(self).segments@.last()@, r.0@),
            write_views(r.1@) == append_writes(old(self).segments@.last()@, r.0@),
            r.0.offset == old(self).segments@.last().next_offset,
            r.0.prev_hash == old(self).segments@.last().last_record_hash,
            r.0@.key == opt_vec(key),
            r.0.value@ == value@,
            r.0@.is_sealed(),
            final(self).topic == old(self).topic,
            final(self).partition_id == old(self).partition_id,
            final(self).max_segment_bytes == old(self).max_segment_bytes,
            chained(old(self).segments@) ==> chained(final(self).segments@),
            segments_ordered(old(self).segments@) ==> segments_ordered(final(self).segments@),
    {
        let active = self.active_segment_mut();
        let r = active.append(key, value);
        proof {
            let old_segs = old(self).segments@;
            let segs = self.segments@;
            assert forall|i: int| 0 <= i < old_segs.len() - 1 implies segs[i] == old_segs[i] by {}
            if chained(old_segs) {
                assert forall|i: int| 0 < i < segs.len() implies (#[trigger] segs[i]).genesis_hash@
                    == segs[i - 1].last_record_hash@ && segs[i].base_offset == segs[i - 1].next_offset by {
                    if i < segs.len() - 1 {
                        assert(segs[i] == old_segs[i]);
                        assert(segs[i - 1] == old_segs[i - 1]);
                    } else {
                        assert(segs[i - 1] == old_segs[i - 1]);
                        assert(old_segs[i].genesis_hash@ == old_segs[i - 1].last_record_hash@);
                    }
                }
            }
        }
        r
    }

    /// Appends a new event to the partition, stamped with the current time.
    /// If the active segment has reached `max_segment_bytes`, the log first
    /// rolls over to a new segment (see `roll_segment`) opened from
    /// `successor`, the contents of the file at `append_step()`'s base offset
    /// (ignored when there is no roll); the event then goes to the active
    /// segment. Returns the committed record, the writes that put it into the
    /// active segment's file, and, on a roll, what to do to the new file.
    /// `None` where the new file holds a record that cannot be decoded; on
    /// `None` or an error the log is as it was.
    pub fn append(&mut self, key: Option<Vec<u8>>, value: Vec<u8>, successor: &[u8]) -> (r: Option<
        Result<(Record, Vec<FileWrite>, Option<SegmentFile>), VortexError>,
    >)
        requires
            old(self).segments@.len() > 0,
            room_to_append(*old(self), opt_vec(key), value@, successor@),
        ensures
            match (append_target(*old(self), successor@), r) {
                (None, None) => successor_outcome(*old(self), successor@) is Unparseable && *final(self)
                    == *old(self),
                (None, Some(Err(e))) => reports_open_error(successor_outcome(*old(self), successor@), e)
                    && *final(self) == *old(self),
                (Some(t), Some(Ok((rec, writes, opened)))) => {
                    &&& final(self).segments@.len() == old(self).segments@.len() + (if rolls(*old(self)) {
                        1int
                    } else {
                        0int
                    })
                    &&& forall|i: int|
                        0 <= i < final(self).segments@.len() - 1 ==> final(self).segments@[i]
                            == old(self).segments@[i]
                    &&& final(self).segments@.last()@ == appended(t, rec@)
                    &&& write_views(writes@) == append_writes(t, rec@)
                    &&& rec.offset == t.next_offset
                    &&& rec.prev_hash@ == t.last_record_hash
                    &&& rec@.key == opt_vec(key)
                    &&& rec.value@ == value@
                    &&& rec@.is_sealed()
                    &&& opened is Some <==> rolls(*old(self))
                    &&& opened matches Some(a) ==> file_action_for(
                        a,
                        successor@,
                        old(self).segments@.last().next_offset,
                        old(self).segments@.last().last_record_hash@,
                    )
                    &&& final(self).topic == old(self).topic
                    &&& final(self).partition_id == old(self).partition_id
                    &&& final(self).max_segment_bytes == old(self).max_segment_bytes
                },
                _ => false,
            },
            chained(old(self).segments@) && (rolls(*old(self)) ==> successor_chains(*old(self), successor@))
                ==> chained(final(self).segments@),
            segments_ordered(old(self).segments@) && (rolls(*old(self)) ==> successor_chains(
                *old(self),
                successor@,
            )) ==> segments_ordered(final(self).segments@),
    {
        let mut opened: Option<SegmentFile> = None;
        if self.active_segment().size() >= self.max_segment_bytes {
            match self.roll_segment(successor) {
                None => {
                    return None;
                },
                Some(Err(e)) => {
                    return Some(Err(e));
                },
                Some(Ok(a)) => {
                    opened = Some(a);
                },
            }
        }
        let ghost mid = self.segments@;
        let (rec, writes) = self.append_to_active(key, value);
        proof {
            assert forall|i: int| 0 <= i < self.segments@.len() - 1 implies self.segments@[i]
                == old(self).segments@[i] by {
                assert(self.segments@[i] == mid[i]);
                if rolls(*old(self)) {
                    assert(mid.drop_last()[i] == mid[i]);
                }
            }
        }
        Some(Ok((rec, writes, opened)))
    }
}


// --- Reading across segments ---

/// The number of leading segments whose base offset is at most `target`,
/// as a binary search over `[lo, hi)` finds it.
pub open spec fn base_upper_bound(segments: Seq<Segment>, target: u64, lo: int, hi: int) -> int
    decreases hi - lo,
{
    if lo >= hi {
        lo
    } else {
        let mid = lo + (hi - lo) / 2;
        if segments[mid].base_offset <= target {
            base_upper_bound(segments, target, mid + 1, hi)
        } else {
            base_upper_bound(segments, target, lo, mid)
        }
    }
}

/// The segment a read from `start` begins in: the last one the search finds
/// starting at or before it.
pub open spec fn first_segment_for(segments: Seq<Segment>, start: u64) -> int {
    let k = base_upper_bound(segments, start, 0, segments.len() as int);
    if k == 0 {
        0
    } else {
        k - 1
    }
}

/// Every segment ends at or after where it starts.
pub open spec fn segments_ordered(segments: Seq<Segment>) -> bool {
    forall|i: int| 0 <= i < segments.len() ==> (#[trigger] segments[i]).base_offset <= segments[i].next_offset
}

/// The base offsets of chained segments never decrease.
proof fn lemma_chained_bases(segments: Seq<Segment>, i: int, j: int)
    requires
        chained(segments),
        segments_ordered(segments),
        0 <= i <= j < segments.len(),
    ensures
        segments[i].base_offset <= segments[j].base_offset,
    decreases j - i,
{
    if i < j {
        lemma_chained_bases(segments, i, j - 1);
        assert(segments[j].base_offset == segments[j - 1].next_offset);
        assert(segments[j - 1].base_offset <= segments[j - 1].next_offset);
    }
}

/// On segments whose bases never decrease, the search splits them into those
/// starting at or before the target and those starting after it.
proof fn lemma_base_upper_bound(segments: Seq<Segment>, target: u64, lo: int, hi: int)
    requires
        chained(segments),
        segments_ordered(segments),
        0 <= lo <= hi <= segments.len(),
        forall|i: int| 0 <= i < lo ==> (#[trigger] segments[i]).base_offset <= target,
        forall|i: int| hi <= i < segments.len() ==> (#[trigger] segments[i]).base_offset > target,
    ensures
        lo <= base_upper_bound(segments, target, lo, hi) <= hi,
        forall|i: int|
            0 <= i < base_upper_bound(segments, target, lo, hi) ==> (#[trigger] segments[i]).base_offset
                <= target,
        forall|i: int|
            base_upper_bound(segments, target, lo, hi) <= i < segments.len() ==> (#[trigger] segments[i]).base_offset
                > target,
    decreases hi - lo,
{
    if lo < hi {
        let mid = lo + (hi - lo) / 2;
        if segments[mid].base_offset <= target {
            assert forall|i: int| 0 <= i < mid + 1 implies (#[trigger] segments[i]).base_offset <= target by {
                if i >= lo {
                    lemma_chained_bases(segments, i, mid);
                }
            }
            lemma_base_upper_bound(segments, target, mid + 1, hi);
        } else {
            assert forall|i: int| mid <= i < segments.len() implies (#[trigger] segments[i]).base_offset > target by {
                if i < hi {
                    lemma_chained_bases(segments, mid, i);
                }
            }
            lemma_base_upper_bound(segments, target, lo, mid);
        }
    }
}

/// A read across chained segments starts in the segment whose offsets hold
/// its start: for every start offset within the log, the segment the search
/// picks begins at or before it and ends after it.
pub proof fn lemma_read_starts_in_range(segments: Seq<Segment>, start: u64)
    requires
        chained(segments),
        segments_ordered(segments),
        segments.len() > 0,
        segments[0].base_offset <= start < segments.last().next_offset,
    ensures
        0 <= first_segment_for(segments, start) < segments.len(),
        segments[first_segment_for(segments, start)].base_offset <= start,
        start < segments[first_segment_for(segments, start)].next_offset,
{
    let n = segments.len() as int;
    lemma_base_upper_bound(segments, start, 0, n);
    let k = base_upper_bound(segments, start, 0, n);
    assert(segments[0].base_offset <= start);
    assert(k >= 1);
    if k < n {
        assert(segments[k].base_offset > start);
        assert(segments[k].base_offset == segments[k - 1].next_offset);
    }
}

/// A read across a partition's segments, in progress.
pub struct PartitionRead {
    pub segment_index: usize,
    pub current_offset: u64,
    pub bytes_accumulated: usize,
    pub max_bytes: usize,
    pub records: Vec<Record>,
    pub finished: bool,
}

/// Taking records from a batch: each adds its value's length and 96 bytes
/// to the running count and moves the current offset past it; taking stops
/// after the record that brings the count to `max`. `None` where a count or
/// an offset overflows.
pub open spec fn absorb_from(batch: Seq<RecordView>, i: nat, acc: int, curr: u64, max: int) -> Option<
    (int, u64, nat),
>
    decreases batch.len() - i,
{
    if i >= batch.len() {
        Some((acc, curr, i))
    } else {
        let r = batch[i as int];
        let a = acc + r.value.len() + 96;
        if r.value.len() + 96 > usize::MAX || a > usize::MAX || r.offset == u64::MAX {
            None
        } else if a >= max {
            Some((a, (r.offset + 1) as u64, i + 1))
        } else {
            absorb_from(batch, i + 1, a, (r.offset + 1) as u64, max)
        }
    }
}

/// Records that run consecutively from offset `start`, each chained to the
/// one before it.
pub open spec fn runs_from(rs: Seq<RecordView>, start: int) -> bool {
    &&& forall|i: int| 0 <= i < rs.len() ==> (#[trigger] rs[i]).offset == start + i
    &&& forall|i: int| 0 < i < rs.len() ==> (#[trigger] rs[i]).prev_hash == rs[i - 1].record_hash
}

/// The bytes a partition read counts for records: each value's length and 96.
pub open spec fn counted_bytes(rs: Seq<RecordView>) -> int
    decreases rs.len(),
{
    if rs.len() == 0 {
        0
    } else {
        counted_bytes(rs.drop_last()) + rs.last().value.len() + 96
    }
}

/// A partition read counts each record as its value's length and 96 bytes,
/// whatever its key.
pub proof fn lemma_counted_bytes_push(rs: Seq<RecordView>, r: RecordView)
    ensures
        counted_bytes(rs.push(r)) == counted_bytes(rs) + r.value.len() + 96,
{
    assert(rs.push(r).drop_last() =~= rs);
}

/// What a read takes from a batch does not depend on the records' keys: two
/// batches whose records agree on offsets and value lengths are taken alike.
pub proof fn lemma_absorb_ignores_keys(
    batch: Seq<RecordView>,
    other: Seq<RecordView>,
    i: nat,
    acc: int,
    curr: u64,
    max: int,
)
    requires
        batch.len() == other.len(),
        forall|j: int|
            0 <= j < batch.len() ==> (#[trigger] batch[j]).offset == other[j].offset
                && batch[j].value.len() == other[j].value.len(),
    ensures
        absorb_from(batch, i, acc, curr, max) == absorb_from(other, i, acc, curr, max),
    decreases batch.len() - i,
{
    if i < batch.len() {
        assert(batch[i as int].offset == other[i as int].offset);
        lemma_absorb_ignores_keys(batch, other, i + 1, acc + batch[i as int].value.len() + 96, (
        batch[i as int].offset + 1) as u64, max);
    }
}

/// Taking from a batch with a running count `acc` below the budget: what is
/// taken is the batch's first `k` records, the count grows by their value
/// lengths and 96 bytes each, every record but the last is taken while the
/// count is below `max`, taking stops only at the batch's end or once the
/// count reaches `max`, and the offset moves just past the last one taken.
pub proof fn lemma_absorb_takes_under_budget(batch: Seq<RecordView>, acc: int, curr: u64, max: int)
    requires
        acc < max,
        absorb_from(batch, 0, acc, curr, max) is Some,
    ensures
        ({
            let (a, c, k) = absorb_from(batch, 0, acc, curr, max).unwrap();
            &&& k <= batch.len()
            &&& a == acc + counted_bytes(batch.take(k as int))
            &&& forall|j: int| 0 <= j < k ==> acc + counted_bytes(#[trigger] batch.take(j)) < max
            &&& k < batch.len() ==> a >= max
            &&& k == 0 ==> c == curr
            &&& k > 0 ==> c == batch[k - 1].offset + 1
        }),
{
    assert(batch.take(0) =~= Seq::<RecordView>::empty());
    lemma_absorb_takes_from(batch, 0, acc, curr, max, acc);
}

proof fn lemma_absorb_takes_from(batch: Seq<RecordView>, i: nat, a0: int, curr: u64, max: int, acc: int)
    requires
        i <= batch.len(),
        acc == a0 + counted_bytes(batch.take(i as int)),
        forall|j: int| 0 <= j <= i ==> a0 + counted_bytes(#[trigger] batch.take(j)) < max,
        i == 0 ==> acc == a0,
        i > 0 ==> curr == batch[i - 1].offset + 1,
        absorb_from(batch, i, acc, curr, max) is Some,
    ensures
        ({
            let (a, c, k) = absorb_from(batch, i, acc, curr, max).unwrap();
            &&& i <= k <= batch.len()
            &&& a == a0 + counted_bytes(batch.take(k as int))
            &&& forall|j: int| 0 <= j < k ==> a0 + counted_bytes(#[trigger] batch.take(j)) < max
            &&& k < batch.len() ==> a >= max
            &&& k == i ==> c == curr
            &&& k > 0 && k > i ==> c == batch[k - 1].offset + 1
        }),
    decreases batch.len() - i,
{
    if i < batch.len() {
        let r = batch[i as int];
        let a = acc + r.value.len() + 96;
        assert(batch.take(i as int + 1) =~= batch.take(i as int).push(r));
        lemma_counted_bytes_push(batch.take(i as int), r);
        if a < max {
            lemma_absorb_takes_from(batch, i + 1, a0, (r.offset + 1) as u64, max, a);
        }
    }
}

/// Two runs, the second starting where the first ends and chained to its
/// last record, make one run.
proof fn lemma_runs_join(a: Seq<RecordView>, b: Seq<RecordView>, start: int)
    requires
        runs_from(a, start),
        runs_from(b, start + a.len()),
        a.len() > 0 && b.len() > 0 ==> b[0].prev_hash == a.last().record_hash,
    ensures
        runs_from(a + b, start),
{
    let ab = a + b;
    assert forall|i: int| 0 <= i < ab.len() implies (#[trigger] ab[i]).offset == start + i by {
        if i >= a.len() {
            assert(ab[i] == b[i - a.len()]);
        }
    }
    assert forall|i: int| 0 < i < ab.len() implies (#[trigger] ab[i]).prev_hash == ab[i - 1].record_hash by {
        if i > a.len() {
            assert(ab[i] == b[i - a.len()]);
            assert(ab[i - 1] == b[i - 1 - a.len()]);
        } else if i == a.len() {
            assert(ab[i] == b[0]);
        }
    }
}

/// Taking from `all` after its first `j` records, as `absorb_from` does,
/// keeps the count equal to the counted bytes of what was taken and the
/// offset just past it, with every record but the last taken under the budget.
proof fn lemma_absorb_counts(all: Seq<RecordView>, batch: Seq<RecordView>, t: int, start: int, i: nat, acc: int, curr: u64, max: int)
    requires
        forall|j: int| 0 <= j < all.len() ==> (#[trigger] all[j]).offset == start + j,
        all.len() == t + batch.len(),
        forall|j: int| 0 <= j < batch.len() ==> #[trigger] batch[j] == all[t + j],
        0 <= t,
        0 <= start,
        i <= batch.len(),
        acc == counted_bytes(all.take(t + i)),
        curr == start + t + i,
        acc < max,
        absorb_from(batch, i, acc, curr, max) is Some,
    ensures
        ({
            let (a, c, k) = absorb_from(batch, i, acc, curr, max).unwrap();
            &&& i <= k <= batch.len()
            &&& a == counted_bytes(all.take(t + k))
            &&& c == start + t + k
            &&& counted_bytes(all.take(t + k).drop_last()) < max || t + k == 0
        }),
    decreases batch.len() - i,
{
    if i < batch.len() {
        let r = batch[i as int];
        assert(all[t + i] == r);
        assert(r.offset == start + t + i);
        let a2 = acc + r.value.len() + 96;
        assert(all.take(t + i + 1).drop_last() =~= all.take(t + i));
        assert(all.take(t + i + 1).last() == r);
        if a2 < max {
            lemma_absorb_counts(all, batch, t, start, i + 1, a2, (r.offset + 1) as u64, max);
        }
    } else if t + i > 0 {
        assert(all.take(t + i).drop_last() =~= all.take(t + i - 1));
        lemma_counted_grows(all.take(t + i));
    }
}

/// Counted bytes never shrink as records are added.
proof fn lemma_counted_grows(rs: Seq<RecordView>)
    requires
        rs.len() > 0,
    ensures
        counted_bytes(rs.drop_last()) <= counted_bytes(rs),
{
}

/// Absorbing a batch keeps a read's records one run: when the records taken
/// so far run from the read's start to the current offset, counted under the
/// budget, and the batch runs on from the current offset, chained to the last
/// record taken, what absorbing takes extends the run, the count stays the
/// counted bytes of the records taken, the offset moves just past the last
/// of them, and every record taken but the last was taken under the budget.
pub proof fn lemma_absorb_keeps_run(taken: Seq<RecordView>, batch: Seq<RecordView>, start: int, max: int)
    requires
        0 <= start,
        runs_from(taken, start),
        runs_from(batch, start + taken.len()),
        taken.len() > 0 && batch.len() > 0 ==> batch[0].prev_hash == taken.last().record_hash,
        counted_bytes(taken) < max,
        start + taken.len() <= u64::MAX,
        absorb_from(batch, 0, counted_bytes(taken), (start + taken.len()) as u64, max) is Some,
    ensures
        ({
            let (a, c, k) = absorb_from(batch, 0, counted_bytes(taken), (start + taken.len()) as u64, max).unwrap();
            let now = taken + batch.take(k as int);
            &&& runs_from(now, start)
            &&& a == counted_bytes(now)
            &&& c == start + now.len()
            &&& now.len() > 0 ==> counted_bytes(now.drop_last()) < max
        }),
{
    let all = taken + batch;
    let t = taken.len() as int;
    lemma_runs_join(taken, batch, start);
    assert(all.take(t) =~= taken);
    assert forall|j: int| 0 <= j < batch.len() implies #[trigger] batch[j] == all[t + j] by {}
    lemma_absorb_counts(all, batch, t, start, 0, counted_bytes(taken), (start + t) as u64, max);
    let (a, c, k) = absorb_from(batch, 0, counted_bytes(taken), (start + t) as u64, max).unwrap();
    let now = taken + batch.take(k as int);
    assert(now =~= all.take(t + k));
    assert forall|i: int| 0 <= i < now.len() implies (#[trigger] now[i]).offset == start + i by {
        assert(now[i] == all[i]);
    }
    assert forall|i: int| 0 < i < now.len() implies (#[trigger] now[i]).prev_hash == now[i - 1].record_hash by {
        assert(now[i] == all[i]);
        assert(now[i - 1] == all[i - 1]);
    }
}

impl PartitionLog {
    /// Starts reading records from `start_offset` across segments, up to
    /// `max_bytes`: finished at once when the offset lies outside the log,
    /// otherwise positioned at the segment whose range holds it.
    pub fn read(&self, start_offset: u64, max_bytes: usize) -> (r: PartitionRead)
        ensures
            r.records@.len() == 0,
            r.bytes_accumulated == 0,
            r.max_bytes == max_bytes,
            r.current_offset == start_offset,
            r.finished <==> (self.segments@.len() == 0 || start_offset < self.segments@[0].base_offset
                || start_offset >= self.segments@.last().next_offset),
            !r.finished ==> r.segment_index == first_segment_for(self.segments@, start_offset),
    {
        let mut r = PartitionRead {
            segment_index: 0,
            current_offset: start_offset,
            bytes_accumulated: 0,
            max_bytes,
            records: Vec::new(),
            finished: true,
        };
        if self.segments.len() == 0 {
            return r;
        }
        let first_offset = self.segments[0].base_offset;
        let next_offset = self.next_offset();
        if start_offset < first_offset || start_offset >= next_offset {
            return r;
        }
        let n = self.segments.len();
        let mut lo: usize = 0;
        let mut hi: usize = n;
        while lo < hi
            invariant
                0 <= lo <= hi <= n,
                n == self.segments@.len(),
                base_upper_bound(self.segments@, start_offset, 0, n as int) == base_upper_bound(
                    self.segments@,
                    start_offset,
                    lo as int,
                    hi as int,
                ),
            decreases hi - lo,
        {
            let mid = lo + (hi - lo) / 2;
            if self.segments[mid].base_offset <= start_offset {
                lo = mid + 1;
            } else {
                hi = mid;
            }
        }
        r.segment_index = if lo == 0 {
            0
        } else {
            lo - 1
        };
        r.finished = false;
        r
    }
}

impl PartitionRead {
    /// The next read to make, if any: the index of the segment, the offset
    /// to read it from and the most bytes to read. The read goes on while
    /// segments remain and fewer than `max_bytes` have been taken.
    pub fn next_segment(&self, num_segments: usize) -> (r: Option<(usize, u64, usize)>)
        ensures
            r == (if self.finished || self.segment_index >= num_segments || self.bytes_accumulated
                >= self.max_bytes {
                None
            } else {
                Some(
                    (
                        self.segment_index,
                        self.current_offset,
                        (self.max_bytes - self.bytes_accumulated) as usize,
                    ),
                )
            }),
    {
        if self.finished || self.segment_index >= num_segments || self.bytes_accumulated >= self.max_bytes {
            None
        } else {
            Some((self.segment_index, self.current_offset, self.max_bytes - self.bytes_accumulated))
        }
    }

    /// Takes records from the batch a segment read returned, then moves on to
    /// the next segment. `false` where a byte count or an offset overflows.
    pub fn absorb(&mut self, batch: Vec<Record>) -> (ok: bool)
        requires
            old(self).segment_index < usize::MAX,
        ensures
            ok == absorb_from(
                record_views(batch@),
                0,
                old(self).bytes_accumulated as int,
                old(self).current_offset,
                old(self).max_bytes as int,
            ) is Some,
            ok ==> ({
                let (acc, curr, taken) = absorb_from(
                    record_views(batch@),
                    0,
                    old(self).bytes_accumulated as int,
                    old(self).current_offset,
                    old(self).max_bytes as int,
                ).unwrap();
                &&& final(self).bytes_accumulated == acc
                &&& final(self).current_offset == curr
                &&& record_views(final(self).records@) == record_views(old(self).records@)
                    + record_views(batch@).take(taken as int)
                &&& final(self).segment_index == old(self).segment_index + 1
                &&& final(self).max_bytes == old(self).max_bytes
                &&& final(self).finished == old(self).finished
            }),
    {
        let ghost views = record_views(batch@);
        let ghost spec0 = absorb_from(
            views,
            0,
            self.bytes_accumulated as int,
            self.current_offset,
            self.max_bytes as int,
        );
        let mut acc = self.bytes_accumulated;
        let mut curr = self.current_offset;
        let mut i: usize = 0;
        while i < batch.len()
            invariant
                i <= batch@.len(),
                views == record_views(batch@),
                spec0 == absorb_from(views, i as nat, acc as int, curr, self.max_bytes as int),
                spec0 == absorb_from(
                    views,
                    0,
                    old(self).bytes_accumulated as int,
                    old(self).current_offset,
                    old(self).max_bytes as int,
                ),
                self.max_bytes == old(self).max_bytes,
                self.segment_index == old(self).segment_index,
                self.segment_index < usize::MAX,
                self.finished == old(self).finished,
                self.records == old(self).records,
            decreases batch.len() - i,
        {
            let rec = &batch[i];
            assert(views[i as int] == rec@);
            let len = rec.value.len();
            if len > usize::MAX - 96 {
                return false;
            }
            let add = len + 96;
            if acc > usize::MAX - add || rec.offset == u64::MAX {
                return false;
            }
            acc = acc + add;
            curr = rec.offset + 1;
            i = i + 1;
            if acc >= self.max_bytes {
                self.take_records(batch, i, acc, curr);
                return true;
            }
        }
        self.take_records(batch, i, acc, curr);
        true
    }

    fn take_records(&mut self, batch: Vec<Record>, taken: usize, acc: usize, curr: u64)
        requires
            taken <= batch@.len(),
            old(self).segment_index < usize::MAX,
        ensures
            final(self).bytes_accumulated == acc,
            final(self).current_offset == curr,
            record_views(final(self).records@) == record_views(old(self).records@) + record_views(
                batch@,
            ).take(taken as int),
            final(self).segment_index == old(self).segment_index + 1,
            final(self).max_bytes == old(self).max_bytes,
            final(self).finished == old(self).finished,
    {
        let mut taken_records = batch;
        taken_records.truncate(taken);
        let ghost before = self.records@;
        let ghost moved = taken_records@;
        self.records.append(&mut taken_records);
        assert(self.records@ =~= before + moved);
        assert(record_views(self.records@) =~= record_views(before) + record_views(moved));
        assert(record_views(moved) =~= record_views(batch@).take(taken as int));
        self.bytes_accumulated = acc;
        self.current_offset = curr;
        self.segment_index = self.segment_index + 1;
    }

    /// The records read.
    pub fn into_records(self) -> (v: Vec<Record>)
        ensures
            v == self.records,
    {
        self.records
    }
}

} // verus!

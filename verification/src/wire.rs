//! Big-endian integer encodings and a byte cursor over an owned buffer.

use vstd::prelude::*;

verus! {

/// The two big-endian bytes of `v`.
pub open spec fn be16(v: u16) -> Seq<u8> {
    seq![(v / 0x100) as u8, (v % 0x100) as u8]
}

/// The four big-endian bytes of `v`.
pub open spec fn be32(v: u32) -> Seq<u8> {
    seq![
        (v / 0x100_0000) as u8,
        ((v / 0x1_0000) % 0x100) as u8,
        ((v / 0x100) % 0x100) as u8,
        (v % 0x100) as u8,
    ]
}

/// The eight big-endian bytes of `v`.
pub open spec fn be64(v: u64) -> Seq<u8> {
    be32((v / 0x1_0000_0000) as u32) + be32((v % 0x1_0000_0000) as u32)
}

/// The number whose big-endian encoding is the first two bytes of `s`.
pub open spec fn from_be16(s: Seq<u8>) -> u16 {
    (s[0] as int * 0x100 + s[1] as int) as u16
}

/// The number whose big-endian encoding is the first four bytes of `s`.
pub open spec fn from_be32(s: Seq<u8>) -> u32 {
    (s[0] as int * 0x100_0000 + s[1] as int * 0x1_0000 + s[2] as int * 0x100 + s[3] as int) as u32
}

/// The number whose big-endian encoding is the first eight bytes of `s`.
pub open spec fn from_be64(s: Seq<u8>) -> u64 {
    (from_be32(s) as int * 0x1_0000_0000 + from_be32(s.subrange(4, 8)) as int) as u64
}

pub proof fn lemma_be16_roundtrip(v: u16)
    ensures
        be16(v).len() == 2,
        from_be16(be16(v)) == v,
{
}

pub proof fn lemma_be32_roundtrip(v: u32)
    ensures
        be32(v).len() == 4,
        from_be32(be32(v)) == v,
{
}

pub proof fn lemma_be64_roundtrip(v: u64)
    ensures
        be64(v).len() == 8,
        from_be64(be64(v)) == v,
{
    let hi = (v / 0x1_0000_0000) as u32;
    let lo = (v % 0x1_0000_0000) as u32;
    lemma_be32_roundtrip(hi);
    lemma_be32_roundtrip(lo);
    assert(be64(v).subrange(4, 8) =~= be32(lo));
    assert(from_be32(be64(v)) == from_be32(be32(hi)));
}

/// A big-endian number depends only on its own bytes.
pub proof fn lemma_from_be32_prefix(s: Seq<u8>, t: Seq<u8>)
    requires
        s.len() >= 4,
        t.len() >= 4,
        s.subrange(0, 4) == t.subrange(0, 4),
    ensures
        from_be32(s) == from_be32(t),
{
    assert(s[0] == s.subrange(0, 4)[0] && s[1] == s.subrange(0, 4)[1]);
    assert(s[2] == s.subrange(0, 4)[2] && s[3] == s.subrange(0, 4)[3]);
    assert(t[0] == t.subrange(0, 4)[0] && t[1] == t.subrange(0, 4)[1]);
    assert(t[2] == t.subrange(0, 4)[2] && t[3] == t.subrange(0, 4)[3]);
}

/// A big-endian number depends only on its own bytes.
pub proof fn lemma_from_be64_prefix(s: Seq<u8>, t: Seq<u8>)
    requires
        s.len() >= 8,
        t.len() >= 8,
        s.subrange(0, 8) == t.subrange(0, 8),
    ensures
        from_be64(s) == from_be64(t),
{
    assert(s.subrange(0, 4) =~= s.subrange(0, 8).subrange(0, 4));
    assert(t.subrange(0, 4) =~= t.subrange(0, 8).subrange(0, 4));
    lemma_from_be32_prefix(s, t);
    assert(s.subrange(4, 8) =~= s.subrange(0, 8).subrange(4, 8));
    assert(t.subrange(4, 8) =~= t.subrange(0, 8).subrange(4, 8));
}

/// The `u32` at position `i` of `s` is the `u32` at the front of `s[i..]`.
pub proof fn lemma_from_be32_at(s: Seq<u8>, i: int)
    requires
        0 <= i,
        i + 4 <= s.len(),
    ensures
        from_be32(s.skip(i)) == from_be32(s.subrange(i, i + 4)),
{
    assert(s.skip(i).subrange(0, 4) =~= s.subrange(i, i + 4).subrange(0, 4));
    lemma_from_be32_prefix(s.skip(i), s.subrange(i, i + 4));
}

/// The `u64` at position `i` of `s` is the `u64` at the front of `s[i..]`.
pub proof fn lemma_from_be64_at(s: Seq<u8>, i: int)
    requires
        0 <= i,
        i + 8 <= s.len(),
    ensures
        from_be64(s.skip(i)) == from_be64(s.subrange(i, i + 8)),
{
    assert(s.skip(i).subrange(0, 8) =~= s.subrange(i, i + 8).subrange(0, 8));
    lemma_from_be64_prefix(s.skip(i), s.subrange(i, i + 8));
}

/// Reading a `u32` at the front of `be32(v) + rest` gives back `v`.
pub proof fn lemma_be32_read(v: u32, rest: Seq<u8>)
    ensures
        from_be32(be32(v) + rest) == v,
{
    lemma_be32_roundtrip(v);
    assert((be32(v) + rest).subrange(0, 4) =~= be32(v).subrange(0, 4));
    lemma_from_be32_prefix(be32(v) + rest, be32(v));
}

/// Reading a `u64` at the front of `be64(v) + rest` gives back `v`.
pub proof fn lemma_be64_read(v: u64, rest: Seq<u8>)
    ensures
        from_be64(be64(v) + rest) == v,
{
    lemma_be64_roundtrip(v);
    assert((be64(v) + rest).subrange(0, 8) =~= be64(v).subrange(0, 8));
    lemma_from_be64_prefix(be64(v) + rest, be64(v));
}

/// Reading a `u16` at the front of `be16(v) + rest` gives back `v`.
pub proof fn lemma_be16_read(v: u16, rest: Seq<u8>)
    ensures
        from_be16(be16(v) + rest) == v,
{
    lemma_be16_roundtrip(v);
}



/// Appends one byte.
pub fn put_u8(buf: &mut Vec<u8>, v: u8)
    ensures
        final(buf)@ == old(buf)@.push(v),
{
    buf.push(v);
}

/// Appends the big-endian encoding of a `u16`.
pub fn put_u16(buf: &mut Vec<u8>, v: u16)
    ensures
        final(buf)@ == old(buf)@ + be16(v),
{
    buf.push((v / 0x100) as u8);
    buf.push((v % 0x100) as u8);
    assert(buf@ =~= old(buf)@ + be16(v));
}

/// Appends the big-endian encoding of a `u32`.
pub fn put_u32(buf: &mut Vec<u8>, v: u32)
    ensures
        final(buf)@ == old(buf)@ + be32(v),
{
    buf.push((v / 0x100_0000) as u8);
    buf.push(((v / 0x1_0000) % 0x100) as u8);
    buf.push(((v / 0x100) % 0x100) as u8);
    buf.push((v % 0x100) as u8);
    assert(buf@ =~= old(buf)@ + be32(v));
}

/// Appends the big-endian encoding of a `u64`.
pub fn put_u64(buf: &mut Vec<u8>, v: u64)
    ensures
        final(buf)@ == old(buf)@ + be64(v),
{
    put_u32(buf, (v / 0x1_0000_0000) as u32);
    put_u32(buf, (v % 0x1_0000_0000) as u32);
    assert(buf@ =~= old(buf)@ + be64(v));
}

/// Appends a copy of `data`.
pub fn put_slice(buf: &mut Vec<u8>, data: &[u8])
    ensures
        final(buf)@ == old(buf)@ + data@,
{
    buf.extend_from_slice(data);
}

/// Reads the big-endian `u32` stored at `pos` in `data`.
pub fn read_u32_at(data: &[u8], pos: usize) -> (v: u32)
    requires
        pos + 4 <= data@.len(),
    ensures
        v == from_be32(data@.subrange(pos as int, pos + 4)),
{
    (data[pos] as u32) * 0x100_0000 + (data[pos + 1] as u32) * 0x1_0000 + (data[pos + 2] as u32)
        * 0x100 + (data[pos + 3] as u32)
}

/// Reads the big-endian `u16` stored at `pos` in `data`.
pub fn read_u16_at(data: &[u8], pos: usize) -> (v: u16)
    requires
        pos + 2 <= data@.len(),
    ensures
        v == from_be16(data@.subrange(pos as int, pos + 2)),
{
    (data[pos] as u16) * 0x100 + (data[pos + 1] as u16)
}

/// Reads the big-endian `u64` stored at `pos` in `data`.
pub fn read_u64_at(data: &[u8], pos: usize) -> (v: u64)
    requires
        pos + 8 <= data@.len(),
    ensures
        v == from_be64(data@.subrange(pos as int, pos + 8)),
{
    let n = data.len();
    assert(pos + 8 <= n);
    let hi = read_u32_at(data, pos);
    let lo = read_u32_at(data, pos + 4);
    assert(data@.subrange(pos as int, pos + 8).subrange(4, 8) =~= data@.subrange(pos + 4, pos + 8));
    (hi as u64) * 0x1_0000_0000 + (lo as u64)
}

/// A copy of `data[start..end]`.
pub fn copy_range(data: &[u8], start: usize, end: usize) -> (out: Vec<u8>)
    requires
        start <= end <= data@.len(),
    ensures
        out@ == data@.subrange(start as int, end as int),
{
    let mut out: Vec<u8> = Vec::with_capacity(end - start);
    let mut i: usize = start;
    while i < end
        invariant
            start <= i <= end <= data@.len(),
            out@ == data@.subrange(start as int, i as int),
        decreases end - i,
    {
        out.push(data[i]);
        i = i + 1;
        assert(out@ =~= data@.subrange(start as int, i as int));
    }
    out
}

/// A read cursor over an owned byte buffer: what has been read is behind it,
/// what remains is its view.
pub struct ByteReader {
    data: Vec<u8>,
    pos: usize,
}

impl ByteReader {
    #[verifier::type_invariant]
    spec fn inv(self) -> bool {
        self.pos <= self.data@.len()
    }

    /// The bytes not yet read.
    pub closed spec fn unread(self) -> Seq<u8> {
        self.data@.subrange(self.pos as int, self.data@.len() as int)
    }
}

impl View for ByteReader {
    type V = Seq<u8>;

    open spec fn view(&self) -> Seq<u8> {
        self.unread()
    }
}

impl ByteReader {
    /// A cursor at the start of `data`.
    pub fn new(data: Vec<u8>) -> (r: Self)
        ensures
            r@ == data@,
    {
        let r = ByteReader { data, pos: 0 };
        assert(r.unread() =~= r.data@);
        r
    }

    /// The number of bytes not yet read.
    pub fn remaining(&self) -> (n: usize)
        ensures
            n == self@.len(),
    {
        proof {
            use_type_invariant(self);
        }
        self.data.len() - self.pos
    }

    /// The unread bytes, as a slice.
    pub fn chunk(&self) -> (s: &[u8])
        ensures
            s@ == self@,
    {
        proof {
            use_type_invariant(self);
        }
        let s = vstd::slice::slice_subrange(self.data.as_slice(), self.pos, self.data.len());
        s
    }

    /// A second cursor over a copy of the unread bytes.
    pub fn duplicate(&self) -> (r: Self)
        ensures
            r@ == self@,
    {
        let c = self.chunk();
        let copy = copy_range(c, 0, c.len());
        assert(copy@ =~= self@);
        ByteReader::new(copy)
    }

    /// Moves the cursor `n` bytes forward.
    pub fn advance(&mut self, n: usize)
        requires
            n <= old(self)@.len(),
        ensures
            final(self)@ == old(self)@.skip(n as int),
    {
        proof {
            use_type_invariant(&*self);
        }
        let len = self.data.len();
        assert(self.pos + n <= len);
        self.pos = self.pos + n;
        assert(self.unread() =~= old(self)@.skip(n as int));
    }

    /// Reads one byte.
    pub fn get_u8(&mut self) -> (v: u8)
        requires
            old(self)@.len() >= 1,
        ensures
            v == old(self)@[0],
            final(self)@ == old(self)@.skip(1),
    {
        proof {
            use_type_invariant(&*self);
        }
        let v = self.data[self.pos];
        self.advance(1);
        v
    }

    /// Reads a big-endian `u16`.
    pub fn get_u16(&mut self) -> (v: u16)
        requires
            old(self)@.len() >= 2,
        ensures
            v == from_be16(old(self)@),
            final(self)@ == old(self)@.skip(2),
    {
        let v = read_u16_at(self.chunk(), 0);
        self.advance(2);
        v
    }

    /// Reads a big-endian `u32`.
    pub fn get_u32(&mut self) -> (v: u32)
        requires
            old(self)@.len() >= 4,
        ensures
            v == from_be32(old(self)@),
            final(self)@ == old(self)@.skip(4),
    {
        let v = read_u32_at(self.chunk(), 0);
        self.advance(4);
        v
    }

    /// Reads a big-endian `u64`.
    pub fn get_u64(&mut self) -> (v: u64)
        requires
            old(self)@.len() >= 8,
        ensures
            v == from_be64(old(self)@),
            final(self)@ == old(self)@.skip(8),
    {
        let v = read_u64_at(self.chunk(), 0);
        assert(old(self)@.subrange(0, 8).subrange(4, 8) =~= old(self)@.subrange(4, 8));
        self.advance(8);
        v
    }

    /// Reads the next `n` bytes into a new buffer.
    pub fn copy_to_vec(&mut self, n: usize) -> (out: Vec<u8>)
        requires
            n <= old(self)@.len(),
        ensures
            out@ == old(self)@.take(n as int),
            final(self)@ == old(self)@.skip(n as int),
    {
        let out = copy_range(self.chunk(), 0, n);
        self.advance(n);
        out
    }
}

} // verus!

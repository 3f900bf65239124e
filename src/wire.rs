use vstd::prelude::*;

verus! {

/// The big-endian 32-bit value of four bytes.
pub open spec fn be32(b0: u8, b1: u8, b2: u8, b3: u8) -> u32 {
    ((b0 as u32) << 24u32) | ((b1 as u32) << 16u32) | ((b2 as u32) << 8u32) | (b3 as u32)
}

/// The big-endian 32-bit value stored at offset `i` of `s`.
pub open spec fn be32_at(s: Seq<u8>, i: int) -> u32 {
    be32(s[i], s[i + 1], s[i + 2], s[i + 3])
}

/// The four big-endian bytes of `n`.
pub open spec fn be32_bytes(n: u32) -> Seq<u8> {
    seq![(n >> 24u32) as u8, (n >> 16u32) as u8, (n >> 8u32) as u8, n as u8]
}

/// Writing a value as four big-endian bytes and reading them back gives the value.
pub proof fn lemma_be32_round_trip(n: u32)
    ensures
        be32_at(be32_bytes(n), 0) == n,
{
    let b = be32_bytes(n);
    assert(b[0] == (n >> 24u32) as u8);
    assert(b[1] == (n >> 16u32) as u8);
    assert(b[2] == (n >> 8u32) as u8);
    assert(b[3] == n as u8);
    assert(((((n >> 24u32) as u8) as u32) << 24u32) | ((((n >> 16u32) as u8) as u32) << 16u32)
        | ((((n >> 8u32) as u8) as u32) << 8u32) | ((n as u8) as u32) == n) by (bit_vector);
}

/// Reads the big-endian 32-bit value at offset `i`.
pub fn read_be32(s: &[u8], i: usize) -> (r: u32)
    requires
        i + 4 <= s@.len(),
    ensures
        r == be32_at(s@, i as int),
{
    ((s[i] as u32) << 24u32) | ((s[i + 1] as u32) << 16u32) | ((s[i + 2] as u32) << 8u32) | (s[i
        + 3] as u32)
}

/// Appends the four big-endian bytes of `n`.
pub fn push_be32(out: &mut Vec<u8>, n: u32)
    ensures
        final(out)@ == old(out)@ + be32_bytes(n),
{
    out.push((n >> 24u32) as u8);
    out.push((n >> 16u32) as u8);
    out.push((n >> 8u32) as u8);
    out.push(n as u8);
    assert(final(out)@ =~= old(out)@ + be32_bytes(n));
}

/// Appends `src[from..to]` to `out`.
pub fn extend_range(out: &mut Vec<u8>, src: &[u8], from: usize, to: usize)
    requires
        from <= to <= src@.len(),
    ensures
        final(out)@ == old(out)@ + src@.subrange(from as int, to as int),
{
    let mut i: usize = from;
    while i < to
        invariant
            from <= i <= to <= src@.len(),
            out@ == old(out)@ + src@.subrange(from as int, i as int),
        decreases to - i,
    {
        out.push(src[i]);
        i = i + 1;
        assert(out@ =~= old(out)@ + src@.subrange(from as int, i as int));
    }
}

/// A byte buffer read from the front: each read consumes what it returns.
pub struct Data {
    bytes: Vec<u8>,
    pos: usize,
}

impl View for Data {
    type V = Seq<u8>;

    /// The bytes not read yet.
    closed spec fn view(&self) -> Seq<u8> {
        self.bytes@.subrange(self.pos as int, self.bytes@.len() as int)
    }
}

impl Data {
    pub closed spec fn wf(&self) -> bool {
        self.pos <= self.bytes@.len()
    }

    pub fn new(bytes: Vec<u8>) -> (r: Data)
        ensures
            r.wf(),
            r@ == bytes@,
    {
        let r = Data { bytes, pos: 0 };
        assert(r@ =~= r.bytes@);
        r
    }

    /// The number of bytes not read yet.
    pub fn remaining(&self) -> (r: usize)
        requires
            self.wf(),
        ensures
            r == self@.len(),
    {
        self.bytes.len() - self.pos
    }

    /// The bytes not read yet, as a vector.
    pub fn to_vec(&self) -> (r: Vec<u8>)
        requires
            self.wf(),
        ensures
            r@ == self@,
    {
        let mut r: Vec<u8> = Vec::new();
        extend_range(&mut r, self.bytes.as_slice(), self.pos, self.bytes.len());
        assert(r@ =~= self@);
        r
    }

    /// Reads one byte; `None`, reading nothing, when the buffer is empty.
    pub fn get_u8(&mut self) -> (r: Option<u8>)
        requires
            old(self).wf(),
        ensures
            final(self).wf(),
            old(self)@.len() >= 1 ==> r == Some(old(self)@[0]) && final(self)@ == old(self)@.subrange(1, old(self)@.len() as int),
            old(self)@.len() < 1 ==> r is None && final(self)@ == old(self)@,
    {
        if self.pos < self.bytes.len() {
            let b = self.bytes[self.pos];
            self.pos = self.pos + 1;
            assert(self@ =~= old(self)@.subrange(1, old(self)@.len() as int));
            Some(b)
        } else {
            None
        }
    }

    /// Reads a big-endian 32-bit value; `None`, reading nothing, when fewer
    /// than four bytes are left.
    pub fn get_u32(&mut self) -> (r: Option<u32>)
        requires
            old(self).wf(),
        ensures
            final(self).wf(),
            old(self)@.len() >= 4 ==> r == Some(be32_at(old(self)@, 0)) && final(self)@ == old(self)@.subrange(4, old(self)@.len() as int),
            old(self)@.len() < 4 ==> r is None && final(self)@ == old(self)@,
    {
        if self.bytes.len() - self.pos >= 4 {
            let v = read_be32(self.bytes.as_slice(), self.pos);
            self.pos = self.pos + 4;
            assert(self@ =~= old(self)@.subrange(4, old(self)@.len() as int));
            Some(v)
        } else {
            None
        }
    }

    /// Reads a string: a big-endian 32-bit length, then that many bytes.
    /// `None`, reading nothing, when the buffer is shorter than that.
    pub fn get_u8s(&mut self) -> (r: Option<Vec<u8>>)
        requires
            old(self).wf(),
        ensures
            final(self).wf(),
            match string_at(old(self)@) {
                Some((s, rest)) => r is Some && r->0@ == s && final(self)@ == rest,
                None => r is None && final(self)@ == old(self)@,
            },
    {
        if self.bytes.len() - self.pos < 4 {
            return None;
        }
        let n = read_be32(self.bytes.as_slice(), self.pos);
        let start = self.pos + 4;
        if ((self.bytes.len() - start) as u64) < n as u64 {
            return None;
        }
        let end = start + n as usize;
        let mut r: Vec<u8> = Vec::new();
        extend_range(&mut r, self.bytes.as_slice(), start, end);
        self.pos = end;
        assert(r@ =~= old(self)@.subrange(4, 4 + n as int));
        assert(self@ =~= old(self)@.subrange(4 + n as int, old(self)@.len() as int));
        Some(r)
    }
}

/// A length-prefixed string at the front of `s`, and what follows it.
pub open spec fn string_at(s: Seq<u8>) -> Option<(Seq<u8>, Seq<u8>)> {
    if s.len() < 4 || s.len() < 4 + be32_at(s, 0) {
        None
    } else {
        let end = 4 + be32_at(s, 0);
        Some((s.subrange(4, end), s.subrange(end, s.len() as int)))
    }
}

} // verus!

verus! {

/// The big-endian 32-bit value of four bytes.
pub fn be32_of(b0: u8, b1: u8, b2: u8, b3: u8) -> (r: u32)
    ensures
        r == be32(b0, b1, b2, b3),
{
    ((b0 as u32) << 24u32) | ((b1 as u32) << 16u32) | ((b2 as u32) << 8u32) | (b3 as u32)
}

} // verus!

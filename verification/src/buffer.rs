//! Fixed 512-byte frame buffer with a read/write cursor.
//!
//! DNS over UDP in the profile this crate supports never exceeds 512 bytes,
//! so the packet frame is a fixed array plus a cursor. Every primitive
//! checks the 512-byte bound and fails with `DnsError::EndOfBuffer` rather
//! than touching memory outside the frame; on failure the buffer is left
//! unchanged.

use vstd::prelude::*;

verus! {

broadcast use vstd::array::group_array_axioms;

/// Errors of the wire codec.
///
/// - `EndOfBuffer`: a read or write would cross byte 511 of the frame.
/// - `PointerLoop`: a name decode followed more than five compression jumps.
/// - `LabelTooLong`: a name encode met a label longer than 63 bytes.
#[derive(Clone, Copy, Debug, PartialEq, Eq, Structural)]
pub enum DnsError {
    EndOfBuffer,
    PointerLoop,
    LabelTooLong,
}

/// Big-endian value of two bytes.
pub open spec fn spec_u16(hi: u8, lo: u8) -> u16 {
    ((hi as u16) * 256 + (lo as u16)) as u16
}

/// Big-endian value of four bytes.
pub open spec fn spec_u32(b0: u8, b1: u8, b2: u8, b3: u8) -> u32 {
    ((b0 as u32) * 0x1000000 + (b1 as u32) * 0x10000 + (b2 as u32) * 0x100 + (b3 as u32)) as u32
}

/// The two big-endian bytes of a 16-bit value.
pub open spec fn enc_u16(v: u16) -> Seq<u8> {
    seq![(v / 256) as u8, (v % 256) as u8]
}

/// The four big-endian bytes of a 32-bit value.
pub open spec fn enc_u32(v: u32) -> Seq<u8> {
    seq![
        (v / 0x1000000) as u8,
        ((v / 0x10000) % 256) as u8,
        ((v / 0x100) % 256) as u8,
        (v % 256) as u8,
    ]
}

/// The two big-endian bytes of a 16-bit value read back as that value.
pub proof fn lemma_u16_roundtrip(v: u16)
    ensures
        spec_u16(enc_u16(v)[0], enc_u16(v)[1]) == v,
{
}

/// The four big-endian bytes of a 32-bit value read back as that value.
pub proof fn lemma_u32_roundtrip(v: u32)
    ensures
        spec_u32(enc_u32(v)[0], enc_u32(v)[1], enc_u32(v)[2], enc_u32(v)[3]) == v,
{
    assert(spec_u32(enc_u32(v)[0], enc_u32(v)[1], enc_u32(v)[2], enc_u32(v)[3]) == v) by (
    nonlinear_arith);
}

/// A piece of a run of bytes known to sit in a frame is the matching piece
/// of the frame.
pub proof fn lemma_subrange_of_subrange(buf: Seq<u8>, p: int, e: Seq<u8>, a: int, b: int)
    requires
        0 <= p,
        p + e.len() <= buf.len(),
        buf.subrange(p, p + e.len()) == e,
        0 <= a <= b <= e.len(),
    ensures
        buf.subrange(p + a, p + b) == e.subrange(a, b),
{
    assert(buf.subrange(p + a, p + b) =~= e.subrange(a, b)) by {
        assert forall|k: int| 0 <= k < b - a implies buf.subrange(p + a, p + b)[k] == e.subrange(
            a,
            b,
        )[k] by {
            assert(buf.subrange(p, p + e.len())[a + k] == buf[p + a + k]);
        }
    }
}

/// Where a run of bytes holds the two big-endian bytes of `v` at `off`,
/// the frame reads `v` back there.
pub proof fn lemma_u16_at(buf: Seq<u8>, p: int, e: Seq<u8>, off: int, v: u16)
    requires
        0 <= p,
        p + e.len() <= buf.len(),
        buf.subrange(p, p + e.len()) == e,
        0 <= off,
        off + 2 <= e.len(),
        e.subrange(off, off + 2) == enc_u16(v),
    ensures
        spec_u16(buf[p + off], buf[p + off + 1]) == v,
{
    lemma_subrange_of_subrange(buf, p, e, off, off + 2);
    assert(buf.subrange(p + off, p + off + 2)[0] == buf[p + off]);
    assert(buf.subrange(p + off, p + off + 2)[1] == buf[p + off + 1]);
    lemma_u16_roundtrip(v);
}

/// Where a run of bytes holds the four big-endian bytes of `v` at `off`,
/// the frame reads `v` back there.
pub proof fn lemma_u32_at(buf: Seq<u8>, p: int, e: Seq<u8>, off: int, v: u32)
    requires
        0 <= p,
        p + e.len() <= buf.len(),
        buf.subrange(p, p + e.len()) == e,
        0 <= off,
        off + 4 <= e.len(),
        e.subrange(off, off + 4) == enc_u32(v),
    ensures
        spec_u32(buf[p + off], buf[p + off + 1], buf[p + off + 2], buf[p + off + 3]) == v,
{
    lemma_subrange_of_subrange(buf, p, e, off, off + 4);
    assert(buf.subrange(p + off, p + off + 4)[0] == buf[p + off]);
    assert(buf.subrange(p + off, p + off + 4)[1] == buf[p + off + 1]);
    assert(buf.subrange(p + off, p + off + 4)[2] == buf[p + off + 2]);
    assert(buf.subrange(p + off, p + off + 4)[3] == buf[p + off + 3]);
    lemma_u32_roundtrip(v);
}

/// `orig` with `bytes` written over the range starting at `at`.
pub open spec fn spliced(orig: Seq<u8>, at: int, bytes: Seq<u8>) -> Seq<u8> {
    Seq::new(orig.len(), |i: int| if at <= i < at + bytes.len() { bytes[i - at] } else { orig[i] })
}

/// Splicing two runs of bytes one after the other is splicing their concatenation.
pub proof fn lemma_spliced_concat(orig: Seq<u8>, at: int, xs: Seq<u8>, ys: Seq<u8>)
    ensures
        spliced(spliced(orig, at, xs), at + xs.len(), ys) == spliced(orig, at, xs + ys),
{
    assert(spliced(spliced(orig, at, xs), at + xs.len(), ys) =~= spliced(orig, at, xs + ys));
}

/// Overwriting the byte just past a spliced run extends the run.
pub proof fn lemma_spliced_push(orig: Seq<u8>, at: int, bytes: Seq<u8>, v: u8)
    requires
        0 <= at,
        at + bytes.len() < orig.len(),
    ensures
        spliced(orig, at, bytes).update(at + bytes.len(), v) == spliced(orig, at, bytes.push(v)),
{
    assert(spliced(orig, at, bytes).update(at + bytes.len(), v) =~= spliced(
        orig,
        at,
        bytes.push(v),
    ));
}

/// Reading back a spliced run yields the bytes that were written.
pub proof fn lemma_spliced_subrange(orig: Seq<u8>, at: int, bytes: Seq<u8>)
    requires
        0 <= at,
        at + bytes.len() <= orig.len(),
    ensures
        spliced(orig, at, bytes).subrange(at, at + bytes.len()) == bytes,
{
    assert(spliced(orig, at, bytes).subrange(at, at + bytes.len()) =~= bytes);
}

/// Splicing nothing changes nothing.
pub proof fn lemma_spliced_empty(orig: Seq<u8>, at: int)
    ensures
        spliced(orig, at, Seq::<u8>::empty()) == orig,
{
    assert(spliced(orig, at, Seq::<u8>::empty()) =~= orig);
}

/// The 512-byte packet frame with its cursor.
///
/// Reads and writes advance `pos`; the absolute-position operations
/// (`get`, `get_range`, `set`, `set_u16`) do not.
pub struct BytePacketBuffer {
    pub buf: [u8; 512],
    pub pos: usize,
}

impl BytePacketBuffer {
    /// A zeroed frame with the cursor at the start.
    pub fn new() -> (r: BytePacketBuffer)
        ensures
            r.pos == 0,
            r.buf@ == Seq::new(512, |i: int| 0u8),
    {
        let r = BytePacketBuffer { buf: [0; 512], pos: 0 };
        proof {
            assert(r.buf@ =~= Seq::new(512, |i: int| 0u8));
        }
        r
    }

    /// Current cursor position.
    pub fn pos(&self) -> (r: usize)
        ensures
            r == self.pos,
    {
        self.pos
    }

    /// Move the cursor forward by `steps`. No bound check: later reads and
    /// writes re-check against the frame end.
    pub fn step(&mut self, steps: usize)
        requires
            old(self).pos + steps <= usize::MAX,
        ensures
            final(self).pos == old(self).pos + steps,
            final(self).buf == old(self).buf,
    {
        self.pos = self.pos + steps;
    }

    /// Move the cursor to an absolute position. No bound check: later reads
    /// and writes re-check against the frame end.
    pub fn seek(&mut self, pos: usize)
        ensures
            final(self).pos == pos,
            final(self).buf == old(self).buf,
    {
        self.pos = pos;
    }

    /// Read the byte at the cursor and advance past it.
    pub fn read(&mut self) -> (r: Result<u8, DnsError>)
        ensures
            final(self).buf == old(self).buf,
            old(self).pos < 512 ==> r == Ok::<u8, DnsError>(old(self).buf@[old(self).pos as int])
                && final(self).pos == old(self).pos + 1,
            old(self).pos >= 512 ==> r == Err::<u8, DnsError>(DnsError::EndOfBuffer)
                && final(self).pos == old(self).pos,
    {
        if self.pos >= 512 {
            return Err(DnsError::EndOfBuffer);
        }
        let res = self.buf[self.pos];
        self.pos = self.pos + 1;
        Ok(res)
    }

    /// Read the byte at an absolute position without moving the cursor.
    pub fn get(&mut self, pos: usize) -> (r: Result<u8, DnsError>)
        ensures
            *final(self) == *old(self),
            pos < 512 ==> r == Ok::<u8, DnsError>(old(self).buf@[pos as int]),
            pos >= 512 ==> r == Err::<u8, DnsError>(DnsError::EndOfBuffer),
    {
        if pos >= 512 {
            return Err(DnsError::EndOfBuffer);
        }
        Ok(self.buf[pos])
    }

    /// Borrow `len` bytes starting at `start`, without moving the cursor.
    /// Fails if `start + len` reaches or exceeds 512.
    pub fn get_range(&self, start: usize, len: usize) -> (r: Result<&[u8], DnsError>)
        ensures
            start + len < 512 ==> r is Ok && r->Ok_0@ == self.buf@.subrange(
                start as int,
                start + len,
            ),
            start + len >= 512 ==> r == Err::<&[u8], DnsError>(DnsError::EndOfBuffer),
    {
        if start >= 512 || len >= 512 - start {
            return Err(DnsError::EndOfBuffer);
        }
        Ok(vstd::slice::slice_subrange(self.buf.as_slice(), start, start + len))
    }

    /// Write a byte at the cursor and advance past it.
    pub fn write(&mut self, val: u8) -> (r: Result<(), DnsError>)
        ensures
            old(self).pos < 512 ==> r == Ok::<(), DnsError>(())
                && final(self).buf@ == old(self).buf@.update(old(self).pos as int, val)
                && final(self).pos == old(self).pos + 1,
            old(self).pos >= 512 ==> r == Err::<(), DnsError>(DnsError::EndOfBuffer)
                && *final(self) == *old(self),
    {
        if self.pos >= 512 {
            return Err(DnsError::EndOfBuffer);
        }
        self.buf[self.pos] = val;
        self.pos = self.pos + 1;
        Ok(())
    }

    /// Write a byte at the cursor (alias of `write`).
    pub fn write_u8(&mut self, val: u8) -> (r: Result<(), DnsError>)
        ensures
            old(self).pos < 512 ==> r == Ok::<(), DnsError>(())
                && final(self).buf@ == old(self).buf@.update(old(self).pos as int, val)
                && final(self).pos == old(self).pos + 1,
            old(self).pos >= 512 ==> r == Err::<(), DnsError>(DnsError::EndOfBuffer)
                && *final(self) == *old(self),
    {
        self.write(val)
    }

    /// Read two bytes at the cursor as a big-endian 16-bit value.
    /// Fails, leaving the buffer unchanged, if they would cross byte 511.
    pub fn read_u16(&mut self) -> (r: Result<u16, DnsError>)
        ensures
            final(self).buf == old(self).buf,
            old(self).pos + 2 <= 512 ==> r == Ok::<u16, DnsError>(
                spec_u16(
                    old(self).buf@[old(self).pos as int],
                    old(self).buf@[old(self).pos + 1],
                ),
            ) && final(self).pos == old(self).pos + 2,
            old(self).pos + 2 > 512 ==> r == Err::<u16, DnsError>(DnsError::EndOfBuffer)
                && final(self).pos == old(self).pos,
    {
        if self.pos > 510 {
            return Err(DnsError::EndOfBuffer);
        }
        let hi = match self.read() {
            Ok(v) => v,
            Err(e) => return Err(e),
        };
        let lo = match self.read() {
            Ok(v) => v,
            Err(e) => return Err(e),
        };
        Ok((hi as u16) * 256 + (lo as u16))
    }

    /// Read four bytes at the cursor as a big-endian 32-bit value.
    /// Fails, leaving the buffer unchanged, if they would cross byte 511.
    pub fn read_u32(&mut self) -> (r: Result<u32, DnsError>)
        ensures
            final(self).buf == old(self).buf,
            old(self).pos + 4 <= 512 ==> r == Ok::<u32, DnsError>(
                spec_u32(
                    old(self).buf@[old(self).pos as int],
                    old(self).buf@[old(self).pos + 1],
                    old(self).buf@[old(self).pos + 2],
                    old(self).buf@[old(self).pos + 3],
                ),
            ) && final(self).pos == old(self).pos + 4,
            old(self).pos + 4 > 512 ==> r == Err::<u32, DnsError>(DnsError::EndOfBuffer)
                && final(self).pos == old(self).pos,
    {
        if self.pos > 508 {
            return Err(DnsError::EndOfBuffer);
        }
        let b0 = match self.read() {
            Ok(v) => v,
            Err(e) => return Err(e),
        };
        let b1 = match self.read() {
            Ok(v) => v,
            Err(e) => return Err(e),
        };
        let b2 = match self.read() {
            Ok(v) => v,
            Err(e) => return Err(e),
        };
        let b3 = match self.read() {
            Ok(v) => v,
            Err(e) => return Err(e),
        };
        Ok((b0 as u32) * 0x1000000 + (b1 as u32) * 0x10000 + (b2 as u32) * 0x100 + (b3 as u32))
    }

    /// Write a 16-bit value at the cursor as two big-endian bytes.
    /// Fails, leaving the buffer unchanged, if they would cross byte 511.
    pub fn write_u16(&mut self, val: u16) -> (r: Result<(), DnsError>)
        ensures
            old(self).pos + 2 <= 512 ==> r == Ok::<(), DnsError>(())
                && final(self).buf@ == spliced(old(self).buf@, old(self).pos as int, enc_u16(val))
                && final(self).pos == old(self).pos + 2,
            old(self).pos + 2 > 512 ==> r == Err::<(), DnsError>(DnsError::EndOfBuffer)
                && *final(self) == *old(self),
    {
        if self.pos > 510 {
            return Err(DnsError::EndOfBuffer);
        }
        let ghost pre = self.buf@;
        let ghost at = self.pos as int;
        match self.write((val / 256) as u8) {
            Ok(()) => (),
            Err(e) => return Err(e),
        };
        match self.write((val % 256) as u8) {
            Ok(()) => (),
            Err(e) => return Err(e),
        };
        proof {
            assert(self.buf@ =~= spliced(pre, at, enc_u16(val)));
        }
        Ok(())
    }

    /// Write a 32-bit value at the cursor as four big-endian bytes.
    /// Fails, leaving the buffer unchanged, if they would cross byte 511.
    pub fn write_u32(&mut self, val: u32) -> (r: Result<(), DnsError>)
        ensures
            old(self).pos + 4 <= 512 ==> r == Ok::<(), DnsError>(())
                && final(self).buf@ == spliced(old(self).buf@, old(self).pos as int, enc_u32(val))
                && final(self).pos == old(self).pos + 4,
            old(self).pos + 4 > 512 ==> r == Err::<(), DnsError>(DnsError::EndOfBuffer)
                && *final(self) == *old(self),
    {
        if self.pos > 508 {
            return Err(DnsError::EndOfBuffer);
        }
        let ghost pre = self.buf@;
        let ghost at = self.pos as int;
        match self.write((val / 0x1000000) as u8) {
            Ok(()) => (),
            Err(e) => return Err(e),
        };
        match self.write(((val / 0x10000) % 256) as u8) {
            Ok(()) => (),
            Err(e) => return Err(e),
        };
        match self.write(((val / 0x100) % 256) as u8) {
            Ok(()) => (),
            Err(e) => return Err(e),
        };
        match self.write((val % 256) as u8) {
            Ok(()) => (),
            Err(e) => return Err(e),
        };
        proof {
            assert(self.buf@ =~= spliced(pre, at, enc_u32(val)));
        }
        Ok(())
    }

    /// Overwrite the byte at an absolute position; the cursor stays put.
    pub fn set(&mut self, pos: usize, val: u8)
        requires
            pos < 512,
        ensures
            final(self).buf@ == old(self).buf@.update(pos as int, val),
            final(self).pos == old(self).pos,
    {
        self.buf[pos] = val;
    }

    /// Overwrite two bytes at an absolute position with a big-endian 16-bit
    /// value; the cursor stays put. Used to backfill RDLENGTH fields.
    pub fn set_u16(&mut self, pos: usize, val: u16)
        requires
            pos + 1 < 512,
        ensures
            final(self).buf@ == spliced(old(self).buf@, pos as int, enc_u16(val)),
            final(self).pos == old(self).pos,
    {
        let ghost pre = self.buf@;
        self.set(pos, (val / 256) as u8);
        self.set(pos + 1, (val % 256) as u8);
        proof {
            assert(self.buf@ =~= spliced(pre, pos as int, enc_u16(val)));
        }
    }
}

} // verus!

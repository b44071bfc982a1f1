//! Bounded byte buffer with positional read/write and back-patch.
//!
//! One buffer is created per datagram.  All multi-byte operations are
//! big-endian (network order); out-of-bounds access fails with
//! `DnsError::InvalidInput` and never panics.

use vstd::prelude::*;

verus! {

/// Fixed capacity of a packet buffer: the largest UDP datagram handled.
pub const PACKET_SIZE: usize = 4096;

/// The single error kind of the codec: malformed wire data on read,
/// overflow or an oversized label on write.
#[derive(Clone, Copy, Debug, PartialEq, Eq, Structural)]
pub enum DnsError {
    InvalidInput,
}

/// The big-endian 16-bit value read from two bytes.
pub open spec fn be_u16(b0: u8, b1: u8) -> u16 {
    ((b0 as u16) << 8) | (b1 as u16)
}

/// The two big-endian bytes of a 16-bit value.
pub open spec fn u16_bytes(v: u16) -> Seq<u8> {
    seq![(v >> 8) as u8, (v & 0xff) as u8]
}

/// The big-endian 32-bit value read from four bytes.
pub open spec fn be_u32(b0: u8, b1: u8, b2: u8, b3: u8) -> u32 {
    ((b0 as u32) << 24) | ((b1 as u32) << 16) | ((b2 as u32) << 8) | (b3 as u32)
}

/// The four big-endian bytes of a 32-bit value.
pub open spec fn u32_bytes(v: u32) -> Seq<u8> {
    seq![(v >> 24) as u8, (v >> 16) as u8, (v >> 8) as u8, v as u8]
}

/// Writing a 16-bit value and reading it back is the identity.
pub proof fn lemma_u16_round_trip(v: u16)
    ensures
        be_u16(u16_bytes(v)[0], u16_bytes(v)[1]) == v,
{
    assert(((((v >> 8) as u8) as u16) << 8) | (((v & 0xff) as u8) as u16) == v) by (bit_vector);
}

/// Reading two bytes as a 16-bit value and writing it back gives the same bytes.
pub proof fn lemma_u16_bytes_round_trip(b0: u8, b1: u8)
    ensures
        u16_bytes(be_u16(b0, b1)) == seq![b0, b1],
{
    let v = be_u16(b0, b1);
    assert(((((b0 as u16) << 8) | (b1 as u16)) >> 8) as u8 == b0) by (bit_vector);
    assert(((((b0 as u16) << 8) | (b1 as u16)) & 0xff) as u8 == b1) by (bit_vector);
    assert(u16_bytes(v) =~= seq![b0, b1]);
}

/// Writing a 32-bit value and reading it back is the identity.
pub proof fn lemma_u32_round_trip(v: u32)
    ensures
        be_u32(u32_bytes(v)[0], u32_bytes(v)[1], u32_bytes(v)[2], u32_bytes(v)[3]) == v,
{
    assert(((((v >> 24) as u8) as u32) << 24) | ((((v >> 16) as u8) as u32) << 16)
        | ((((v >> 8) as u8) as u32) << 8) | ((v as u8) as u32) == v) by (bit_vector);
}

/// Reading four bytes as a 32-bit value and writing it back gives the same bytes.
pub proof fn lemma_u32_bytes_round_trip(b0: u8, b1: u8, b2: u8, b3: u8)
    ensures
        u32_bytes(be_u32(b0, b1, b2, b3)) == seq![b0, b1, b2, b3],
{
    let v = be_u32(b0, b1, b2, b3);
    assert((((((b0 as u32) << 24) | ((b1 as u32) << 16) | ((b2 as u32) << 8) | (b3 as u32))
        >> 24) as u8) == b0) by (bit_vector);
    assert((((((b0 as u32) << 24) | ((b1 as u32) << 16) | ((b2 as u32) << 8) | (b3 as u32))
        >> 16) as u8) == b1) by (bit_vector);
    assert((((((b0 as u32) << 24) | ((b1 as u32) << 16) | ((b2 as u32) << 8) | (b3 as u32))
        >> 8) as u8) == b2) by (bit_vector);
    assert(((((b0 as u32) << 24) | ((b1 as u32) << 16) | ((b2 as u32) << 8) | (b3 as u32))
        as u8) == b3) by (bit_vector);
    assert(u32_bytes(v) =~= seq![b0, b1, b2, b3]);
}

/// The buffer contents after `bytes` are written starting at `pos`:
/// everything outside `[pos, pos + bytes.len())` keeps its old value.
pub open spec fn splice(buf: Seq<u8>, pos: int, bytes: Seq<u8>) -> Seq<u8> {
    buf.take(pos) + bytes + buf.skip(pos + bytes.len())
}

/// Splicing nothing leaves the buffer as it was.
pub proof fn lemma_splice_empty(buf: Seq<u8>, pos: int)
    requires
        0 <= pos <= buf.len(),
    ensures
        splice(buf, pos, Seq::<u8>::empty()) == buf,
{
    assert(splice(buf, pos, Seq::<u8>::empty()) =~= buf);
}

/// Splicing a single byte is a point update.
pub proof fn lemma_splice_one(buf: Seq<u8>, pos: int, v: u8)
    requires
        0 <= pos < buf.len(),
    ensures
        splice(buf, pos, seq![v]) == buf.update(pos, v),
{
    assert(splice(buf, pos, seq![v]) =~= buf.update(pos, v));
}

/// Two consecutive splices are one splice of the concatenation.
pub proof fn lemma_splice_append(buf: Seq<u8>, pos: int, x: Seq<u8>, y: Seq<u8>)
    requires
        0 <= pos,
        pos + x.len() + y.len() <= buf.len(),
    ensures
        splice(splice(buf, pos, x), pos + x.len(), y) == splice(buf, pos, x + y),
{
    assert(splice(splice(buf, pos, x), pos + x.len(), y) =~= splice(buf, pos, x + y));
}

/// One byte of a byte string placed at `pos` stands at its offset.
pub proof fn lemma_byte_of_prefix(buf: Seq<u8>, pos: int, x: Seq<u8>, k: int)
    requires
        0 <= pos,
        pos + x.len() <= buf.len(),
        buf.subrange(pos, pos + x.len()) == x,
        0 <= k < x.len(),
    ensures
        buf[pos + k] == x[k],
{
    assert(buf.subrange(pos, pos + x.len())[k] == buf[pos + k]);
}

/// A slice of a byte string placed at `pos` is the same slice of the
/// buffer, shifted by `pos`.
pub proof fn lemma_subrange_of_prefix(buf: Seq<u8>, pos: int, x: Seq<u8>, a: int, b: int)
    requires
        0 <= pos,
        pos + x.len() <= buf.len(),
        buf.subrange(pos, pos + x.len()) == x,
        0 <= a <= b <= x.len(),
    ensures
        buf.subrange(pos + a, pos + b) == x.subrange(a, b),
{
    assert(buf.subrange(pos + a, pos + b) =~= x.subrange(a, b)) by {
        assert forall|k: int|
            0 <= k < b - a implies buf.subrange(pos + a, pos + b)[k] == x.subrange(a, b)[k] by {
            assert(buf.subrange(pos + a, pos + b)[k] == buf[pos + a + k]);
            assert(buf.subrange(pos, pos + x.len())[a + k] == buf[pos + (a + k)]);
            assert(x.subrange(a, b)[k] == x[a + k]);
        }
    }
}

/// Patching two bytes inside a spliced region patches the region.
pub proof fn lemma_splice_patch(buf: Seq<u8>, pos: int, x: Seq<u8>, k: int, b0: u8, b1: u8)
    requires
        0 <= pos,
        pos + x.len() <= buf.len(),
        0 <= k,
        k + 2 <= x.len(),
    ensures
        splice(buf, pos, x).update(pos + k, b0).update(pos + k + 1, b1) == splice(
            buf,
            pos,
            x.update(k, b0).update(k + 1, b1),
        ),
{
    assert(splice(buf, pos, x).update(pos + k, b0).update(pos + k + 1, b1) =~= splice(
        buf,
        pos,
        x.update(k, b0).update(k + 1, b1),
    ));
}

/// The two halves of a 32-bit read are the 16-bit reads of its bytes.
pub proof fn lemma_u32_halves(b0: u8, b1: u8, b2: u8, b3: u8)
    ensures
        (be_u32(b0, b1, b2, b3) >> 16) as u16 == be_u16(b0, b1),
        be_u32(b0, b1, b2, b3) as u16 == be_u16(b2, b3),
{
    assert(((((b0 as u32) << 24) | ((b1 as u32) << 16) | ((b2 as u32) << 8) | (b3 as u32)) >> 16)
        as u16 == (((b0 as u16) << 8) | (b1 as u16))) by (bit_vector);
    assert((((b0 as u32) << 24) | ((b1 as u32) << 16) | ((b2 as u32) << 8) | (b3 as u32)) as u16
        == (((b2 as u16) << 8) | (b3 as u16))) by (bit_vector);
}

/// Bounded byte buffer with a cursor.  Reads and writes advance the
/// cursor by exactly the bytes consumed; absolute `get`/`set` never
/// move it.
pub struct BytePacketBuffer {
    pub buf: Vec<u8>,
    pub pos: usize,
}

impl BytePacketBuffer {
    /// The buffer always holds exactly `PACKET_SIZE` bytes.
    pub open spec fn wf(&self) -> bool {
        self.buf@.len() == PACKET_SIZE
    }

    /// A fresh zeroed buffer with the cursor at the start.
    pub fn new() -> (r: BytePacketBuffer)
        ensures
            r.wf(),
            r.pos == 0,
            r.buf@ == Seq::new(PACKET_SIZE as nat, |i: int| 0u8),
    {
        let mut buf: Vec<u8> = Vec::new();
        while buf.len() < PACKET_SIZE
            invariant
                buf@.len() <= PACKET_SIZE,
                forall|i: int| 0 <= i < buf@.len() ==> buf@[i] == 0u8,
            decreases PACKET_SIZE - buf@.len(),
        {
            buf.push(0u8);
        }
        proof {
            assert(buf@ =~= Seq::new(PACKET_SIZE as nat, |i: int| 0u8));
        }
        BytePacketBuffer { buf, pos: 0 }
    }

    /// The current cursor position.
    pub fn pos(&self) -> (r: usize)
        ensures
            r == self.pos,
    {
        self.pos
    }

    /// Advances the cursor by `steps` without touching the contents.
    pub fn step(&mut self, steps: usize) -> (r: Result<(), DnsError>)
        requires
            old(self).pos + steps <= usize::MAX,
        ensures
            r is Ok,
            final(self).buf == old(self).buf,
            final(self).pos == old(self).pos + steps,
    {
        self.pos = self.pos + steps;
        Ok(())
    }

    /// Moves the cursor to an absolute position.
    pub fn seek(&mut self, pos: usize) -> (r: Result<(), DnsError>)
        ensures
            r is Ok,
            final(self).buf == old(self).buf,
            final(self).pos == pos,
    {
        self.pos = pos;
        Ok(())
    }

    /// Reads the byte under the cursor and advances past it; fails at
    /// or beyond capacity.
    pub fn read(&mut self) -> (r: Result<u8, DnsError>)
        requires
            old(self).wf(),
        ensures
            final(self).wf(),
            final(self).buf == old(self).buf,
            old(self).pos < PACKET_SIZE ==> r == Ok::<u8, DnsError>(old(self).buf@[old(self).pos as int])
                && final(self).pos == old(self).pos + 1,
            old(self).pos >= PACKET_SIZE ==> r == Err::<u8, DnsError>(DnsError::InvalidInput)
                && final(self).pos == old(self).pos,
    {
        if self.pos >= PACKET_SIZE {
            return Err(DnsError::InvalidInput);
        }
        let res = self.buf[self.pos];
        self.pos = self.pos + 1;
        Ok(res)
    }

    /// Reads the byte at an absolute position without moving the cursor.
    pub fn get(&mut self, pos: usize) -> (r: Result<u8, DnsError>)
        requires
            old(self).wf(),
        ensures
            *final(self) == *old(self),
            pos < PACKET_SIZE ==> r == Ok::<u8, DnsError>(old(self).buf@[pos as int]),
            pos >= PACKET_SIZE ==> r == Err::<u8, DnsError>(DnsError::InvalidInput),
    {
        if pos >= PACKET_SIZE {
            return Err(DnsError::InvalidInput);
        }
        Ok(self.buf[pos])
    }

    /// Copies `len` bytes starting at `start` without moving the
    /// cursor.  Fails exactly when the range runs past the capacity;
    /// a range ending at the capacity is still in bounds.
    pub fn get_range(&mut self, start: usize, len: usize) -> (r: Result<Vec<u8>, DnsError>)
        requires
            old(self).wf(),
        ensures
            *final(self) == *old(self),
            start + len <= PACKET_SIZE ==> r is Ok
                && r->Ok_0@ == old(self).buf@.subrange(start as int, start + len),
            start + len > PACKET_SIZE ==> r == Err::<Vec<u8>, DnsError>(DnsError::InvalidInput),
    {
        if start > PACKET_SIZE || PACKET_SIZE - start < len {
            return Err(DnsError::InvalidInput);
        }
        let mut out: Vec<u8> = Vec::new();
        let mut i: usize = 0;
        while i < len
            invariant
                self.wf(),
                i <= len,
                start + len <= PACKET_SIZE,
                out@ == self.buf@.subrange(start as int, start + i),
            decreases len - i,
        {
            out.push(self.buf[start + i]);
            i = i + 1;
            proof {
                assert(out@ =~= self.buf@.subrange(start as int, start + i));
            }
        }
        Ok(out)
    }

    /// Reads two bytes as a big-endian 16-bit value.
    pub fn read_u16(&mut self) -> (r: Result<u16, DnsError>)
        requires
            old(self).wf(),
        ensures
            final(self).wf(),
            final(self).buf == old(self).buf,
            old(self).pos + 2 <= PACKET_SIZE ==> r == Ok::<u16, DnsError>(be_u16(
                old(self).buf@[old(self).pos as int],
                old(self).buf@[old(self).pos + 1],
            )) && final(self).pos == old(self).pos + 2,
            old(self).pos + 2 > PACKET_SIZE ==> r == Err::<u16, DnsError>(DnsError::InvalidInput),
    {
        let b0 = self.read()?;
        let b1 = self.read()?;
        Ok(((b0 as u16) << 8) | (b1 as u16))
    }

    /// Reads four bytes as a big-endian 32-bit value.
    pub fn read_u32(&mut self) -> (r: Result<u32, DnsError>)
        requires
            old(self).wf(),
        ensures
            final(self).wf(),
            final(self).buf == old(self).buf,
            old(self).pos + 4 <= PACKET_SIZE ==> r == Ok::<u32, DnsError>(be_u32(
                old(self).buf@[old(self).pos as int],
                old(self).buf@[old(self).pos + 1],
                old(self).buf@[old(self).pos + 2],
                old(self).buf@[old(self).pos + 3],
            )) && final(self).pos == old(self).pos + 4,
            old(self).pos + 4 > PACKET_SIZE ==> r == Err::<u32, DnsError>(DnsError::InvalidInput),
    {
        let b0 = self.read()?;
        let b1 = self.read()?;
        let b2 = self.read()?;
        let b3 = self.read()?;
        Ok(((b0 as u32) << 24) | ((b1 as u32) << 16) | ((b2 as u32) << 8) | (b3 as u32))
    }

    /// Writes one byte at the cursor and advances past it; fails at capacity.
    pub fn write(&mut self, val: u8) -> (r: Result<(), DnsError>)
        requires
            old(self).wf(),
        ensures
            final(self).wf(),
            old(self).pos < PACKET_SIZE ==> r is Ok
                && final(self).buf@ == old(self).buf@.update(old(self).pos as int, val)
                && final(self).pos == old(self).pos + 1,
            old(self).pos >= PACKET_SIZE ==> r == Err::<(), DnsError>(DnsError::InvalidInput)
                && *final(self) == *old(self),
    {
        if self.pos >= PACKET_SIZE {
            return Err(DnsError::InvalidInput);
        }
        self.buf[self.pos] = val;
        self.pos = self.pos + 1;
        Ok(())
    }

    /// Writes one byte at the cursor.
    pub fn write_u8(&mut self, val: u8) -> (r: Result<(), DnsError>)
        requires
            old(self).wf(),
        ensures
            final(self).wf(),
            old(self).pos < PACKET_SIZE ==> r is Ok
                && final(self).buf@ == old(self).buf@.update(old(self).pos as int, val)
                && final(self).pos == old(self).pos + 1,
            old(self).pos >= PACKET_SIZE ==> r == Err::<(), DnsError>(DnsError::InvalidInput)
                && *final(self) == *old(self),
    {
        self.write(val)?;
        Ok(())
    }

    /// Writes a 16-bit value as two big-endian bytes.  On failure part
    /// of the value may already stand in the buffer.
    pub fn write_u16(&mut self, val: u16) -> (r: Result<(), DnsError>)
        requires
            old(self).wf(),
        ensures
            final(self).wf(),
            old(self).pos + 2 <= PACKET_SIZE ==> r is Ok
                && final(self).buf@ == old(self).buf@
                    .update(old(self).pos as int, u16_bytes(val)[0])
                    .update(old(self).pos + 1, u16_bytes(val)[1])
                && final(self).pos == old(self).pos + 2,
            old(self).pos + 2 > PACKET_SIZE ==> r == Err::<(), DnsError>(DnsError::InvalidInput),
    {
        self.write((val >> 8) as u8)?;
        self.write((val & 0xff) as u8)?;
        Ok(())
    }

    /// Writes a 32-bit value as four big-endian bytes.  On failure part
    /// of the value may already stand in the buffer.
    pub fn write_u32(&mut self, val: u32) -> (r: Result<(), DnsError>)
        requires
            old(self).wf(),
        ensures
            final(self).wf(),
            old(self).pos + 4 <= PACKET_SIZE ==> r is Ok
                && final(self).buf@ == old(self).buf@
                    .update(old(self).pos as int, u32_bytes(val)[0])
                    .update(old(self).pos + 1, u32_bytes(val)[1])
                    .update(old(self).pos + 2, u32_bytes(val)[2])
                    .update(old(self).pos + 3, u32_bytes(val)[3])
                && final(self).pos == old(self).pos + 4,
            old(self).pos + 4 > PACKET_SIZE ==> r == Err::<(), DnsError>(DnsError::InvalidInput),
    {
        self.write((val >> 24) as u8)?;
        self.write((val >> 16) as u8)?;
        self.write((val >> 8) as u8)?;
        self.write(val as u8)?;
        Ok(())
    }

    /// Back-patches one byte at an absolute position; the cursor stays put.
    pub fn set(&mut self, pos: usize, val: u8) -> (r: Result<(), DnsError>)
        requires
            old(self).wf(),
        ensures
            final(self).wf(),
            final(self).pos == old(self).pos,
            pos < PACKET_SIZE ==> r is Ok
                && final(self).buf@ == old(self).buf@.update(pos as int, val),
            pos >= PACKET_SIZE ==> r == Err::<(), DnsError>(DnsError::InvalidInput)
                && *final(self) == *old(self),
    {
        if pos >= PACKET_SIZE {
            return Err(DnsError::InvalidInput);
        }
        self.buf[pos] = val;
        Ok(())
    }

    /// Back-patches a big-endian 16-bit value at an absolute position;
    /// the cursor stays put.  This is how RDATA length fields are
    /// filled in after their contents are known.
    pub fn set_u16(&mut self, pos: usize, val: u16) -> (r: Result<(), DnsError>)
        requires
            old(self).wf(),
            pos + 2 <= usize::MAX,
        ensures
            final(self).wf(),
            final(self).pos == old(self).pos,
            pos + 2 <= PACKET_SIZE ==> r is Ok
                && final(self).buf@ == old(self).buf@
                    .update(pos as int, u16_bytes(val)[0])
                    .update(pos + 1, u16_bytes(val)[1]),
            pos + 2 > PACKET_SIZE ==> r == Err::<(), DnsError>(DnsError::InvalidInput),
    {
        proof {
            assert(val as u8 == (val & 0xff) as u8) by (bit_vector);
        }
        self.set(pos, (val >> 8) as u8)?;
        self.set(pos + 1, val as u8)?;
        Ok(())
    }
}

} // verus!

//! An append-only byte buffer for building packets.
use vstd::prelude::*;

use crate::OwnedPacket;
use crate::io::IoError;

verus! {

/// The outcome of a write: the number of bytes appended.
pub type WriteResult = Result<usize, IoError>;

/// The two bytes of `v`, most significant first.
pub open spec fn be16(v: u16) -> Seq<u8> {
    seq![(v / 256) as u8, (v % 256) as u8]
}

/// The four bytes of `v`, most significant first.
pub open spec fn be32(v: u32) -> Seq<u8> {
    seq![(v / 0x100_0000) as u8, ((v / 0x1_0000) % 256) as u8, ((v / 256) % 256) as u8, (v % 256) as u8]
}

/// A growing packet; every write appends to its end.
#[derive(Debug)]
pub struct PacketWriter {
    inner: OwnedPacket,
}

impl View for PacketWriter {
    type V = Seq<u8>;

    closed spec fn view(&self) -> Seq<u8> {
        self.inner@
    }
}

impl PacketWriter {
    /// The bytes written so far.
    pub fn get(&self) -> (r: &OwnedPacket)
        ensures
            r@ == self@,
    {
        &self.inner
    }

    /// Gives up the writer and hands back the bytes written.
    pub fn into_inner(self) -> (r: OwnedPacket)
        ensures
            r@ == self@,
    {
        self.inner
    }

    /// The number of bytes written so far.
    pub(crate) fn len(&self) -> (r: usize)
        ensures
            r == self@.len(),
    {
        self.inner.len()
    }

    /// An empty writer.
    pub fn new() -> (w: Self)
        ensures
            w@ == Seq::<u8>::empty(),
    {
        PacketWriter { inner: Vec::new() }
    }

    /// Appends one byte.
    pub fn write_u8(&mut self, value: u8) -> (r: WriteResult)
        ensures
            final(self)@ == old(self)@.push(value),
            r == Ok::<usize, IoError>(1),
    {
        self.inner.push(value);
        Ok(1)
    }

    /// Appends a 16-bit value in network byte order.
    pub fn write_u16(&mut self, value: u16) -> (r: WriteResult)
        ensures
            final(self)@ == old(self)@ + be16(value),
            r == Ok::<usize, IoError>(2),
    {
        self.inner.push((value / 256) as u8);
        self.inner.push((value % 256) as u8);
        assert(self.inner@ =~= old(self)@ + be16(value));
        Ok(2)
    }

    /// Appends a 32-bit value in network byte order.
    pub fn write_u32(&mut self, value: u32) -> (r: WriteResult)
        ensures
            final(self)@ == old(self)@ + be32(value),
            r == Ok::<usize, IoError>(4),
    {
        self.inner.push((value / 0x100_0000) as u8);
        self.inner.push(((value / 0x1_0000) % 256) as u8);
        self.inner.push(((value / 256) % 256) as u8);
        self.inner.push((value % 256) as u8);
        assert(self.inner@ =~= old(self)@ + be32(value));
        Ok(4)
    }

    /// Appends all of `buf`.
    pub fn write(&mut self, buf: &[u8]) -> (r: WriteResult)
        ensures
            final(self)@ == old(self)@ + buf@,
            r == Ok::<usize, IoError>(buf@.len() as usize),
    {
        let mut i: usize = 0;
        while i < buf.len()
            invariant
                0 <= i <= buf@.len(),
                self.inner@ == old(self)@ + buf@.subrange(0, i as int),
            decreases buf@.len() - i,
        {
            self.inner.push(buf[i]);
            i = i + 1;
            assert(self.inner@ =~= old(self)@ + buf@.subrange(0, i as int));
        }
        assert(buf@.subrange(0, i as int) =~= buf@);
        Ok(buf.len())
    }
}

} // verus!

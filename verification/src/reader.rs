//! A cursor over a borrowed packet, reading big-endian integers and byte runs.
use vstd::prelude::*;

use crate::Packet;
use crate::io::{ErrorKind, IoError};
use vstd::slice::SliceAdditionalExecFns;
use crate::writer::{be16, be32};

verus! {

/// The outcome of parsing at some offset of a packet: a value and the offset
/// just past it, the end of the packet reached too early, or an input on which
/// decoding does not return (a label that is not UTF-8, or compression
/// pointers that lead back into each other).
pub enum Parsed<T> {
    Done(T, int),
    Eof,
    Fault,
}

/// Why a decode stopped without a value: the packet ended too early, or the
/// input is one on which decoding never returns.
#[derive(Debug, Clone, Copy, PartialEq, Eq, Structural)]
pub enum Stop {
    Eof,
    Fault,
}

/// The byte at `pos`, or the end of the packet.
pub open spec fn parse_u8(d: Seq<u8>, pos: int) -> Parsed<u8> {
    if 0 <= pos < d.len() {
        Parsed::Done(d[pos], pos + 1)
    } else {
        Parsed::Eof
    }
}

/// The big-endian number in `b[i]` and `b[i + 1]`.
pub open spec fn u16_at(b: Seq<u8>, i: int) -> u16 {
    (b[i] as int * 256 + b[i + 1] as int) as u16
}

/// The big-endian number in `b[i..i + 4]`.
pub open spec fn u32_at(b: Seq<u8>, i: int) -> u32 {
    (b[i] as int * 0x100_0000 + b[i + 1] as int * 0x1_0000 + b[i + 2] as int * 256
        + b[i + 3] as int) as u32
}

/// The 16-bit big-endian number at `pos`.
pub open spec fn parse_u16(d: Seq<u8>, pos: int) -> Parsed<u16> {
    if 0 <= pos && pos + 2 <= d.len() {
        Parsed::Done(u16_at(d, pos), pos + 2)
    } else {
        Parsed::Eof
    }
}

/// The 32-bit big-endian number at `pos`.
pub open spec fn parse_u32(d: Seq<u8>, pos: int) -> Parsed<u32> {
    if 0 <= pos && pos + 4 <= d.len() {
        Parsed::Done(u32_at(d, pos), pos + 4)
    } else {
        Parsed::Eof
    }
}

/// The `n` bytes at `pos`.
pub open spec fn parse_bytes(d: Seq<u8>, pos: int, n: int) -> Parsed<Seq<u8>> {
    if 0 <= pos && 0 <= n && pos + n <= d.len() {
        Parsed::Done(d.subrange(pos, pos + n), pos + n)
    } else {
        Parsed::Eof
    }
}

/// Where `a + b` stands in a packet, `a` stands at the start and `b` right
/// after it.
pub proof fn lemma_window(d: Seq<u8>, p: int, a: Seq<u8>, b: Seq<u8>)
    requires
        0 <= p,
        p + a.len() + b.len() <= d.len(),
        d.subrange(p, p + a.len() + b.len()) == a + b,
    ensures
        d.subrange(p, p + a.len()) == a,
        d.subrange(p + a.len(), p + a.len() + b.len()) == b,
{
    assert(d.subrange(p, p + a.len()) =~= a) by {
        assert forall|k: int| 0 <= k < a.len() implies d.subrange(p, p + a.len())[k] == a[k] by {
            assert(d.subrange(p, p + a.len() + b.len())[k] == (a + b)[k]);
        }
    }
    assert(d.subrange(p + a.len(), p + a.len() + b.len()) =~= b) by {
        assert forall|k: int| 0 <= k < b.len() implies d.subrange(
            p + a.len(),
            p + a.len() + b.len(),
        )[k] == b[k] by {
            let i = p + a.len() + k;
            assert(d.subrange(p, p + a.len() + b.len())[a.len() + k] == (a + b)[a.len() + k]);
            assert(d.subrange(p, p + a.len() + b.len())[a.len() + k] == d[i]);
            assert(d.subrange(p + a.len(), p + a.len() + b.len())[k] == d[i]);
            assert((a + b)[a.len() + k] == b[k]);
        }
    }
}

/// The two bytes written for a 16-bit number read back as that number.
pub proof fn lemma_be16(d: Seq<u8>, p: int, v: u16)
    requires
        0 <= p,
        p + 2 <= d.len(),
        d.subrange(p, p + 2) == be16(v),
    ensures
        u16_at(d, p) == v,
        parse_u16(d, p) == Parsed::Done(v, p + 2),
{
    assert(d[p] == d.subrange(p, p + 2)[0]);
    assert(d[p + 1] == d.subrange(p, p + 2)[1]);
    assert(d[p] as int == v as int / 256);
    assert(d[p + 1] as int == v as int % 256);
}

/// The four bytes written for a 32-bit number read back as that number.
pub proof fn lemma_be32(d: Seq<u8>, p: int, v: u32)
    requires
        0 <= p,
        p + 4 <= d.len(),
        d.subrange(p, p + 4) == be32(v),
    ensures
        u32_at(d, p) == v,
        parse_u32(d, p) == Parsed::Done(v, p + 4),
{
    assert(d[p] == d.subrange(p, p + 4)[0]);
    assert(d[p + 1] == d.subrange(p, p + 4)[1]);
    assert(d[p + 2] == d.subrange(p, p + 4)[2]);
    assert(d[p + 3] == d.subrange(p, p + 4)[3]);
    let x = v as int;
    assert(x == (x / 0x100_0000) * 0x100_0000 + ((x / 0x1_0000) % 256) * 0x1_0000 + ((x / 256)
        % 256) * 256 + x % 256) by (nonlinear_arith)
        requires
            0 <= x < 0x1_0000_0000,
    ;
}

/// A read position over a borrowed packet.
pub struct PacketReader<'a> {
    data: Packet<'a>,
    pos: u64,
}

impl<'a> PacketReader<'a> {
    /// The packet being read.
    pub closed spec fn packet(&self) -> Seq<u8> {
        self.data@
    }

    /// The current read position.
    pub closed spec fn offset(&self) -> int {
        self.pos as int
    }

    /// A reader at the start of `packet`.
    pub fn new(packet: Packet<'a>) -> (r: Self)
        ensures
            r.packet() == packet@,
            r.offset() == 0,
    {
        PacketReader { data: packet, pos: 0 }
    }

    /// A second reader over the same packet at the same position.
    pub(crate) fn copy(&self) -> (r: Self)
        ensures
            r.packet() == self.packet(),
            r.offset() == self.offset(),
    {
        PacketReader { data: self.data, pos: self.pos }
    }

    /// The current read position.
    pub fn position(&self) -> (r: u64)
        ensures
            r == self.offset(),
    {
        self.pos
    }

    /// Moves the read position; a position past the end makes every later read fail.
    pub fn set_position(&mut self, pos: u64)
        ensures
            final(self).packet() == old(self).packet(),
            final(self).offset() == pos,
    {
        self.pos = pos;
    }

    /// The read position, when `n` bytes remain there.
    fn room(&self, n: usize) -> (r: Option<usize>)
        ensures
            r is Some <==> (self.offset() + n <= self.packet().len()),
            r matches Some(at) ==> at == self.offset(),
    {
        let len: usize = self.data.len();
        if self.pos > len as u64 {
            None
        } else {
            let at: usize = self.pos as usize;
            if n <= len - at {
                Some(at)
            } else {
                None
            }
        }
    }

    /// Moves the read position past `n` bytes that remain.
    fn advance(&mut self, n: usize)
        requires
            old(self).offset() + n <= old(self).packet().len(),
        ensures
            final(self).packet() == old(self).packet(),
            final(self).offset() == old(self).offset() + n,
    {
        let len: usize = self.data.len();
        assert(len <= u64::MAX);
        self.pos = self.pos + n as u64;
    }

    /// Fails a read: the position moves to the end of the packet.
    fn fail(&mut self) -> (e: IoError)
        ensures
            final(self).packet() == old(self).packet(),
            final(self).offset() == old(self).packet().len(),
            e.kind == ErrorKind::UnexpectedEof,
    {
        self.pos = self.data.len() as u64;
        IoError::unexpected_eof()
    }

    /// Reads one byte.
    pub fn read_u8(&mut self) -> (r: Result<u8, IoError>)
        ensures
            final(self).packet() == old(self).packet(),
            match parse_u8(old(self).packet(), old(self).offset()) {
                Parsed::Done(v, end) => r == Ok::<u8, IoError>(v) && final(self).offset() == end,
                _ => r matches Err(e) && e.kind == ErrorKind::UnexpectedEof
                    && final(self).offset() == old(self).packet().len(),
            },
    {
        if let Some(at) = self.room(1) {
            let v: u8 = self.data[at];
            self.advance(1);
            Ok(v)
        } else {
            Err(self.fail())
        }
    }

    /// Reads a 16-bit number in network byte order.
    pub fn read_u16(&mut self) -> (r: Result<u16, IoError>)
        ensures
            final(self).packet() == old(self).packet(),
            match parse_u16(old(self).packet(), old(self).offset()) {
                Parsed::Done(v, end) => r == Ok::<u16, IoError>(v) && final(self).offset() == end,
                _ => r matches Err(e) && e.kind == ErrorKind::UnexpectedEof
                    && final(self).offset() == old(self).packet().len(),
            },
    {
        if let Some(at) = self.room(2) {
            let hi: u16 = self.data[at] as u16;
            let lo: u16 = self.data[at + 1] as u16;
            self.advance(2);
            Ok(hi * 256 + lo)
        } else {
            Err(self.fail())
        }
    }

    /// Reads a 32-bit number in network byte order.
    pub fn read_u32(&mut self) -> (r: Result<u32, IoError>)
        ensures
            final(self).packet() == old(self).packet(),
            match parse_u32(old(self).packet(), old(self).offset()) {
                Parsed::Done(v, end) => r == Ok::<u32, IoError>(v) && final(self).offset() == end,
                _ => r matches Err(e) && e.kind == ErrorKind::UnexpectedEof
                    && final(self).offset() == old(self).packet().len(),
            },
    {
        if let Some(at) = self.room(4) {
            let b0: u32 = self.data[at] as u32;
            let b1: u32 = self.data[at + 1] as u32;
            let b2: u32 = self.data[at + 2] as u32;
            let b3: u32 = self.data[at + 3] as u32;
            self.advance(4);
            Ok(b0 * 0x100_0000 + b1 * 0x1_0000 + b2 * 256 + b3)
        } else {
            Err(self.fail())
        }
    }

    /// Fills `buf` with the next bytes of the packet; when too few remain,
    /// fails and leaves `buf` with unspecified contents.
    pub fn read_exact(&mut self, buf: &mut [u8]) -> (r: Result<(), IoError>)
        ensures
            final(self).packet() == old(self).packet(),
            final(buf)@.len() == old(buf)@.len(),
            match parse_bytes(old(self).packet(), old(self).offset(), old(buf)@.len() as int) {
                Parsed::Done(v, end) => r is Ok && final(buf)@ == v && final(self).offset() == end,
                _ => r matches Err(e) && e.kind == ErrorKind::UnexpectedEof
                    && final(self).offset() == old(self).packet().len(),
            },
    {
        let n: usize = buf.len();
        if let Some(at) = self.room(n) {
            let data: &[u8] = self.data;
            let len: usize = data.len();
            let mut i: usize = 0;
            while i < n
                invariant
                    n == buf@.len(),
                    at + n <= data@.len(),
                    len == data@.len(),
                    0 <= i <= n,
                    forall|k: int| 0 <= k < i ==> buf@[k] == data@[at + k],
                decreases n - i,
            {
                buf[i] = data[at + i];
                i = i + 1;
            }
            assert(buf@ =~= data@.subrange(at as int, at + n));
            self.advance(n);
            Ok(())
        } else {
            Err(self.fail())
        }
    }

    /// Reads the next `n` bytes into a new vector.
    pub fn read_vec(&mut self, n: usize) -> (r: Result<Vec<u8>, IoError>)
        ensures
            final(self).packet() == old(self).packet(),
            match parse_bytes(old(self).packet(), old(self).offset(), n as int) {
                Parsed::Done(v, end) => r matches Ok(b) && b@ == v && final(self).offset() == end,
                _ => r matches Err(e) && e.kind == ErrorKind::UnexpectedEof
                    && final(self).offset() == old(self).packet().len(),
            },
    {
        if let Some(at) = self.room(n) {
            let data: &[u8] = self.data;
            let len: usize = data.len();
            let mut out: Vec<u8> = Vec::new();
            let mut i: usize = 0;
            while i < n
                invariant
                    at + n <= data@.len(),
                    len == data@.len(),
                    0 <= i <= n,
                    out@ =~= data@.subrange(at as int, at + i),
                decreases n - i,
            {
                out.push(data[at + i]);
                i = i + 1;
                assert(out@ =~= data@.subrange(at as int, at + i));
            }
            self.advance(n);
            Ok(out)
        } else {
            Err(self.fail())
        }
    }

    /// Reads four bytes.
    pub fn read_array4(&mut self) -> (r: Result<[u8; 4], IoError>)
        ensures
            final(self).packet() == old(self).packet(),
            match parse_bytes(old(self).packet(), old(self).offset(), 4) {
                Parsed::Done(v, end) => r matches Ok(b) && b@ == v && final(self).offset() == end,
                _ => r matches Err(e) && e.kind == ErrorKind::UnexpectedEof
                    && final(self).offset() == old(self).packet().len(),
            },
    {
        let v: Vec<u8> = self.read_vec(4)?;
        let a: [u8; 4] = [v[0], v[1], v[2], v[3]];
        assert(a@ =~= v@);
        Ok(a)
    }

    /// Reads sixteen bytes.
    pub fn read_array16(&mut self) -> (r: Result<[u8; 16], IoError>)
        ensures
            final(self).packet() == old(self).packet(),
            match parse_bytes(old(self).packet(), old(self).offset(), 16) {
                Parsed::Done(v, end) => r matches Ok(b) && b@ == v && final(self).offset() == end,
                _ => r matches Err(e) && e.kind == ErrorKind::UnexpectedEof
                    && final(self).offset() == old(self).packet().len(),
            },
    {
        let v: Vec<u8> = self.read_vec(16)?;
        let a: [u8; 16] = [
            v[0], v[1], v[2], v[3], v[4], v[5], v[6], v[7],
            v[8], v[9], v[10], v[11], v[12], v[13], v[14], v[15],
        ];
        assert(a@ =~= v@);
        Ok(a)
    }
}

impl<'a> PacketReader<'a> {
    /// Reads a question: a name, then type and class.
    pub fn read_question(&mut self) -> (r: Result<crate::dns::question::Question, IoError>)
        requires
            !(crate::dns::question::parse_question(old(self).packet(), old(self).offset()) is Fault),
        ensures
            final(self).packet() == old(self).packet(),
            match crate::dns::question::parse_question(old(self).packet(), old(self).offset()) {
                Parsed::Done(q, end) => r matches Ok(x) && x@ == q && final(self).offset() == end,
                _ => r matches Err(e) && e.kind == ErrorKind::UnexpectedEof && final(self).offset()
                    == old(self).packet().len(),
            },
    {
        crate::dns::question::Question::decode(self)
    }

    /// Reads an answer: name, type, class, time to live, data length, data.
    pub fn read_answer(&mut self) -> (r: Result<crate::dns::answer::Answer, IoError>)
        requires
            !(crate::dns::answer::parse_answer(old(self).packet(), old(self).offset()) is Fault),
        ensures
            final(self).packet() == old(self).packet(),
            match crate::dns::answer::parse_answer(old(self).packet(), old(self).offset()) {
                Parsed::Done(a, end) => r matches Ok(x) && x@ == a && final(self).offset() == end,
                _ => r matches Err(e) && e.kind == ErrorKind::UnexpectedEof && final(self).offset()
                    == old(self).packet().len(),
            },
    {
        crate::dns::answer::Answer::read(self)
    }
}

} // verus!

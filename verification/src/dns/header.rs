//! The fixed twelve-byte header of a DNS message.
use vstd::prelude::*;
use vstd::std_specs::convert::FromSpecImpl;

use crate::dns::flags::{Flags, ResponseCode, code_value};
use crate::io::{ErrorKind, IoError};
use crate::reader::{PacketReader, Parsed, lemma_be16, lemma_window, parse_bytes, u16_at};
use crate::writer::be16;

verus! {

/// The header as it stands on the wire: id, flags and the four section counts.
#[derive(Debug, PartialEq, Eq, Clone, Copy, Structural)]
pub struct WireHeader {
    id: u16,
    flags: Flags,
    question_count: u16,
    answer_count: u16,
    authority_count: u16,
    additional_count: u16,
}

/// The six numbers of a wire header.
pub struct HeaderFields {
    pub id: u16,
    pub flags: u16,
    pub question_count: u16,
    pub answer_count: u16,
    pub authority_count: u16,
    pub additional_count: u16,
}

impl View for WireHeader {
    type V = HeaderFields;

    closed spec fn view(&self) -> HeaderFields {
        HeaderFields {
            id: self.id,
            flags: self.flags@,
            question_count: self.question_count,
            answer_count: self.answer_count,
            authority_count: self.authority_count,
            additional_count: self.additional_count,
        }
    }
}

/// The header fields in the twelve bytes at `pos`.
pub open spec fn parse_header(d: Seq<u8>, pos: int) -> Parsed<HeaderFields> {
    match parse_bytes(d, pos, 12) {
        Parsed::Done(b, end) => Parsed::Done(
            HeaderFields {
                id: u16_at(b, 0),
                flags: u16_at(b, 2),
                question_count: u16_at(b, 4),
                answer_count: u16_at(b, 6),
                authority_count: u16_at(b, 8),
                additional_count: u16_at(b, 10),
            },
            end,
        ),
        _ => Parsed::Eof,
    }
}

/// The twelve bytes of a header.
pub open spec fn encode_header(h: HeaderFields) -> Seq<u8> {
    be16(h.id) + be16(h.flags) + be16(h.question_count) + be16(h.answer_count) + be16(
        h.authority_count,
    ) + be16(h.additional_count)
}

/// A header is read back where its twelve bytes stand.
pub proof fn lemma_header_round_trip(d: Seq<u8>, p: int, h: HeaderFields)
    requires
        0 <= p,
        p + 12 <= d.len(),
        d.subrange(p, p + 12) == encode_header(h),
    ensures
        parse_header(d, p) == Parsed::Done(h, p + 12),
{
    let b = d.subrange(p, p + 12);
    let x0 = be16(h.id);
    let x1 = x0 + be16(h.flags);
    let x2 = x1 + be16(h.question_count);
    let x3 = x2 + be16(h.answer_count);
    let x4 = x3 + be16(h.authority_count);
    assert(b.subrange(0, 12) =~= b);
    lemma_window(b, 0, x4, be16(h.additional_count));
    lemma_window(b, 0, x3, be16(h.authority_count));
    lemma_window(b, 0, x2, be16(h.answer_count));
    lemma_window(b, 0, x1, be16(h.question_count));
    lemma_window(b, 0, x0, be16(h.flags));
    assert(b.subrange(0, 2) =~= x0);
    lemma_be16(b, 0, h.id);
    lemma_be16(b, 2, h.flags);
    lemma_be16(b, 4, h.question_count);
    lemma_be16(b, 6, h.answer_count);
    lemma_be16(b, 8, h.authority_count);
    lemma_be16(b, 10, h.additional_count);
}

impl WireHeader {
    /// The number of questions announced.
    pub fn question_count(&self) -> (r: u16)
        ensures
            r == self@.question_count,
    {
        self.question_count
    }

    /// The number of answer records announced.
    pub fn answer_count(&self) -> (r: u16)
        ensures
            r == self@.answer_count,
    {
        self.answer_count
    }

    /// The number of authority records announced.
    pub fn authority_count(&self) -> (r: u16)
        ensures
            r == self@.authority_count,
    {
        self.authority_count
    }

    /// The number of additional records announced.
    pub fn additional_count(&self) -> (r: u16)
        ensures
            r == self@.additional_count,
    {
        self.additional_count
    }

    /// Reads the twelve header bytes.
    pub fn decode(reader: &mut PacketReader) -> (r: Result<WireHeader, IoError>)
        ensures
            final(reader).packet() == old(reader).packet(),
            match parse_header(old(reader).packet(), old(reader).offset()) {
                Parsed::Done(h, end) => r matches Ok(w) && w@ == h && final(reader).offset() == end,
                _ => r matches Err(e) && e.kind == ErrorKind::UnexpectedEof && final(reader).offset()
                    == old(reader).packet().len(),
            },
    {
        let buf: Vec<u8> = reader.read_vec(12)?;
        let be = |i: usize| -> (v: u16)
            requires
                i + 1 < buf@.len(),
            ensures
                v == u16_at(buf@, i as int),
            { buf[i] as u16 * 256 + buf[i + 1] as u16 };
        let h = WireHeader {
            id: be(0),
            flags: Flags::from(be(2)),
            question_count: be(4),
            answer_count: be(6),
            authority_count: be(8),
            additional_count: be(10),
        };
        Ok(h)
    }
}

/// The part of the header a message keeps: its id and flags.
#[derive(Debug, PartialEq, Eq, Clone, Copy, Structural)]
pub struct Header {
    id: u16,
    flags: Flags,
}

impl View for Header {
    type V = (u16, u16);

    /// The id and the flags word.
    closed spec fn view(&self) -> (u16, u16) {
        (self.id, self.flags@)
    }
}

impl Header {
    /// A header with the given id and flags.
    pub fn new(id: u16, flags: Flags) -> (r: Self)
        ensures
            r@ == (id, flags@),
    {
        Self { id, flags }
    }

    /// The message id.
    pub fn id(&self) -> (r: u16)
        ensures
            r == self@.0,
    {
        self.id
    }

    /// The flags.
    pub fn flags(&self) -> (r: Flags)
        ensures
            r@ == self@.1,
    {
        self.flags
    }

    /// The same header with the RA bit set.
    pub fn with_recursion_available(self) -> (r: Self)
        ensures
            r@ == (self@.0, self@.1 | 0x80),
    {
        Self { flags: self.flags.with_recursion_available(), ..self }
    }

    /// The same header with the QR bit set.
    pub fn into_response(self) -> (r: Header)
        ensures
            r@ == (self@.0, self@.1 | 0x8000),
    {
        Self { flags: self.flags.into_response(), ..self }
    }

    /// The same header with the response code replaced.
    pub fn with_response_code(self, code: ResponseCode) -> (r: Header)
        ensures
            r@ == (self@.0, (self@.1 & 0xfff0) | code_value(code)),
    {
        Self { flags: self.flags.with_response_code(code), ..self }
    }
}

impl From<WireHeader> for Header {
    /// The id and flags of a wire header.
    fn from(value: WireHeader) -> (r: Header)
        ensures
            r@ == (value@.id, value@.flags),
    {
        Header { id: value.id, flags: value.flags }
    }
}

impl FromSpecImpl<WireHeader> for Header {
    open spec fn obeys_from_spec() -> bool {
        true
    }

    closed spec fn from_spec(v: WireHeader) -> Header {
        Header { id: v.id, flags: v.flags }
    }
}

} // verus!

//! An earlier form of the message header that keeps all six fields.
use vstd::prelude::*;

use crate::io::{ErrorKind, IoError};
use crate::reader::{PacketReader, Parsed, parse_bytes, u16_at};

verus! {

/// A message header: id, flags and the four section counts.
#[derive(Debug)]
pub struct Header {
    id: u16,
    flags: u16,
    question_count: u16,
    answer_count: u16,
    authority_count: u16,
    additional_count: u16,
}

impl View for Header {
    type V = crate::dns::header::HeaderFields;

    closed spec fn view(&self) -> crate::dns::header::HeaderFields {
        crate::dns::header::HeaderFields {
            id: self.id,
            flags: self.flags,
            question_count: self.question_count,
            answer_count: self.answer_count,
            authority_count: self.authority_count,
            additional_count: self.additional_count,
        }
    }
}

/// The header fields in twelve bytes.
pub open spec fn fields_of(b: Seq<u8>) -> crate::dns::header::HeaderFields {
    crate::dns::header::HeaderFields {
        id: u16_at(b, 0),
        flags: u16_at(b, 2),
        question_count: u16_at(b, 4),
        answer_count: u16_at(b, 6),
        authority_count: u16_at(b, 8),
        additional_count: u16_at(b, 10),
    }
}

impl Header {
    /// The number of questions.
    pub fn question_count(&self) -> (r: u16)
        ensures
            r == self@.question_count,
    {
        self.question_count
    }

    /// Reads the twelve header bytes.
    pub fn read(reader: &mut PacketReader) -> (r: Result<Header, IoError>)
        ensures
            final(reader).packet() == old(reader).packet(),
            match parse_bytes(old(reader).packet(), old(reader).offset(), 12) {
                Parsed::Done(b, end) => r matches Ok(h) && h@ == fields_of(b)
                    && final(reader).offset() == end,
                _ => r matches Err(e) && e.kind == ErrorKind::UnexpectedEof && final(reader).offset()
                    == old(reader).packet().len(),
            },
    {
        let mut buf: [u8; 12] = [0u8; 12];
        reader.read_exact(&mut buf)?;
        Ok(Header::from_bytes(buf))
    }

    /// The header in twelve bytes, each field big-endian.
    fn from_bytes(bytes: [u8; 12]) -> (r: Header)
        ensures
            r@ == fields_of(bytes@),
    {
        Header {
            id: bytes[0] as u16 * 256 + bytes[1] as u16,
            flags: bytes[2] as u16 * 256 + bytes[3] as u16,
            question_count: bytes[4] as u16 * 256 + bytes[5] as u16,
            answer_count: bytes[6] as u16 * 256 + bytes[7] as u16,
            authority_count: bytes[8] as u16 * 256 + bytes[9] as u16,
            additional_count: bytes[10] as u16 * 256 + bytes[11] as u16,
        }
    }

    /// The number of answers.
    pub fn answer_count(&self) -> (r: u16)
        ensures
            r == self@.answer_count,
    {
        self.answer_count
    }
}

} // verus!

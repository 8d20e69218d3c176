//! The 16-bit flags word of a DNS header and the fields packed into it.
use vstd::prelude::*;

use crate::io::IoError;
use crate::reader::{PacketReader, Parsed, parse_u16};
use crate::writer::{PacketWriter, WriteResult, be16};
use vstd::std_specs::convert::FromSpecImpl;

verus! {

/// The flags word of a DNS header (QR, OPCODE, AA, TC, RD, RA, Z, RCODE).
#[derive(Debug, PartialEq, Eq, Copy, Clone, Structural)]
pub struct Flags(u16);

/// Whether a message is a query or a response (the QR bit).
#[derive(Debug, PartialEq, Eq, Copy, Clone, Structural)]
pub enum QueryOrResponse {
    Query,
    Response,
}

/// The kind of query (the OPCODE field).
#[derive(Debug, PartialEq, Eq, Copy, Clone, Structural)]
pub enum Opcode {
    Query,
    IQuery,
    Status,
    Unknown(u8),
}

/// The outcome reported by a server (the RCODE field).
#[derive(Debug, PartialEq, Eq, Clone, Copy, Structural)]
pub enum ResponseCode {
    NoError,
    FormatError,
    ServerFailure,
    NameError,
    NotImplemented,
    Refused,
    Unknown(u8),
}

/// The number that stands for a response code.
pub open spec fn code_value(code: ResponseCode) -> u16 {
    match code {
        ResponseCode::NoError => 0,
        ResponseCode::FormatError => 1,
        ResponseCode::ServerFailure => 2,
        ResponseCode::NameError => 3,
        ResponseCode::NotImplemented => 4,
        ResponseCode::Refused => 5,
        ResponseCode::Unknown(u) => u as u16,
    }
}

/// The response code that a number in `0..=255` stands for.
pub open spec fn code_of_value(v: u8) -> ResponseCode {
    if v == 0 {
        ResponseCode::NoError
    } else if v == 1 {
        ResponseCode::FormatError
    } else if v == 2 {
        ResponseCode::ServerFailure
    } else if v == 3 {
        ResponseCode::NameError
    } else if v == 4 {
        ResponseCode::NotImplemented
    } else if v == 5 {
        ResponseCode::Refused
    } else {
        ResponseCode::Unknown(v)
    }
}

/// The QR field of a flags word.
pub open spec fn qr_of(bits: u16) -> QueryOrResponse {
    if bits & 0x8000 == 0 {
        QueryOrResponse::Query
    } else {
        QueryOrResponse::Response
    }
}

/// The four OPCODE bits (bits 11 to 14) of a flags word.
pub open spec fn opcode_bits(bits: u16) -> u8 {
    ((bits >> 11u16) & 0xf) as u8
}

/// The OPCODE field of a flags word.
pub open spec fn opcode_of(bits: u16) -> Opcode {
    let v = opcode_bits(bits);
    if v == 0 {
        Opcode::Query
    } else if v == 1 {
        Opcode::IQuery
    } else if v == 2 {
        Opcode::Status
    } else {
        Opcode::Unknown(v)
    }
}

/// The RCODE field of a flags word.
pub open spec fn rcode_of(bits: u16) -> ResponseCode {
    code_of_value((bits & 0xf) as u8)
}

impl From<ResponseCode> for u16 {
    fn from(val: ResponseCode) -> (r: u16) {
        match val {
            ResponseCode::NoError => 0,
            ResponseCode::FormatError => 1,
            ResponseCode::ServerFailure => 2,
            ResponseCode::NameError => 3,
            ResponseCode::NotImplemented => 4,
            ResponseCode::Refused => 5,
            ResponseCode::Unknown(u) => u as u16,
        }
    }
}

impl FromSpecImpl<ResponseCode> for u16 {
    open spec fn obeys_from_spec() -> bool {
        true
    }

    open spec fn from_spec(v: ResponseCode) -> u16 {
        code_value(v)
    }
}

impl View for Flags {
    type V = u16;

    closed spec fn view(&self) -> u16 {
        self.0
    }
}

impl Flags {
    /// Two flag words with the same bits are the same value.
    pub proof fn lemma_view_determines(a: Flags, b: Flags)
        requires
            a@ == b@,
        ensures
            a == b,
    {
    }

    /// All flags clear.
    pub fn new() -> (r: Self)
        ensures
            r@ == 0,
    {
        Flags(0)
    }

    /// Sets the QR bit, marking the message as a response.
    pub fn into_response(self) -> (r: Self)
        ensures
            r@ == self@ | 0x8000,
    {
        Self(self.0 | 0x8000)
    }

    /// Sets the RA bit.
    pub fn with_recursion_available(self) -> (r: Self)
        ensures
            r@ == self@ | 0x80,
    {
        Self(self.0 | 0x80)
    }

    /// Replaces the low four bits with the code's number (a number above 15
    /// also reaches into the bits above them).
    pub fn with_response_code(self, code: ResponseCode) -> (r: Flags)
        ensures
            r@ == (self@ & 0xfff0) | code_value(code),
    {
        let cleared: u16 = self.0 & 0xfff0;
        let mask: u16 = code.into();
        Self(cleared | mask)
    }

    /// The QR bit.
    pub fn query_or_response(&self) -> (r: QueryOrResponse)
        ensures
            r == qr_of(self@),
    {
        if self.0 & 0x8000 == 0 {
            QueryOrResponse::Query
        } else {
            QueryOrResponse::Response
        }
    }

    /// The OPCODE field.
    pub fn opcode(&self) -> (r: Opcode)
        ensures
            r == opcode_of(self@),
    {
        let v: u8 = ((self.0 >> 11u16) & 0xf) as u8;
        match v {
            0 => Opcode::Query,
            1 => Opcode::IQuery,
            2 => Opcode::Status,
            u => Opcode::Unknown(u),
        }
    }

    /// The AA bit.
    pub fn authoritative_answer(&self) -> (r: bool)
        ensures
            r == (self@ & 0x400 != 0),
    {
        self.0 & 0x400 != 0
    }

    /// The TC bit.
    pub fn truncation(&self) -> (r: bool)
        ensures
            r == (self@ & 0x200 != 0),
    {
        self.0 & 0x200 != 0
    }

    /// The RD bit.
    pub fn recursion_desired(&self) -> (r: bool)
        ensures
            r == (self@ & 0x100 != 0),
    {
        self.0 & 0x100 != 0
    }

    /// The RA bit.
    pub fn recursion_available(&self) -> (r: bool)
        ensures
            r == (self@ & 0x80 != 0),
    {
        self.0 & 0x80 != 0
    }

    /// The RCODE field.
    pub fn response_code(&self) -> (r: ResponseCode)
        ensures
            r == rcode_of(self@),
    {
        let v: u8 = (self.0 & 0xf) as u8;
        match v {
            0 => ResponseCode::NoError,
            1 => ResponseCode::FormatError,
            2 => ResponseCode::ServerFailure,
            3 => ResponseCode::NameError,
            4 => ResponseCode::NotImplemented,
            5 => ResponseCode::Refused,
            other => ResponseCode::Unknown(other),
        }
    }

    /// Reads a flags word in network byte order.
    pub fn decode(reader: &mut PacketReader) -> (r: Result<Flags, IoError>)
        ensures
            final(reader).packet() == old(reader).packet(),
            match parse_u16(old(reader).packet(), old(reader).offset()) {
                Parsed::Done(v, end) => r matches Ok(f) && f@ == v && final(reader).offset() == end,
                _ => r matches Err(e) && e.kind == crate::io::ErrorKind::UnexpectedEof
                    && final(reader).offset() == old(reader).packet().len(),
            },
    {
        match reader.read_u16() {
            Ok(v) => Ok(Flags(v)),
            Err(e) => Err(e),
        }
    }

    /// Writes the flags word in network byte order.
    pub fn encode(&self, writer: &mut PacketWriter) -> (r: WriteResult)
        ensures
            final(writer)@ == old(writer)@ + be16(self@),
            r == Ok::<usize, IoError>(2),
    {
        writer.write_u16(self.0)
    }
}

impl From<u16> for Flags {
    fn from(value: u16) -> (r: Self)
        ensures
            r@ == value,
    {
        Flags(value)
    }
}

impl FromSpecImpl<u16> for Flags {
    open spec fn obeys_from_spec() -> bool {
        true
    }

    closed spec fn from_spec(v: u16) -> Flags {
        Flags(v)
    }
}

/// Marking a message as a response sets the QR bit and changes no other bit.
pub proof fn lemma_into_response_only_qr(bits: u16)
    ensures
        qr_of(bits | 0x8000) == QueryOrResponse::Response,
        (bits | 0x8000) & 0x7fff == bits & 0x7fff,
{
    assert((bits | 0x8000) & 0x8000 != 0) by (bit_vector);
    assert((bits | 0x8000) & 0x7fff == bits & 0x7fff) by (bit_vector);
}

/// Setting RA sets bit 7 and changes no other bit.
pub proof fn lemma_recursion_available_only_ra(bits: u16)
    ensures
        (bits | 0x80) & 0x80 != 0,
        (bits | 0x80) & 0xff7f == bits & 0xff7f,
{
    assert((bits | 0x80) & 0x80 != 0) by (bit_vector);
    assert((bits | 0x80) & 0xff7f == bits & 0xff7f) by (bit_vector);
}

/// Replacing the response code with one numbered below 16 keeps the twelve
/// high bits, and the code read back is the one that number stands for: the
/// same code, except that an unknown code numbered 0 to 5 reads back as the
/// named code with that number.
pub proof fn lemma_response_code_round_trip(bits: u16, code: ResponseCode)
    requires
        code_value(code) < 16,
    ensures
        ((bits & 0xfff0) | code_value(code)) & 0xfff0 == bits & 0xfff0,
        rcode_of((bits & 0xfff0) | code_value(code)) == code_of_value(code_value(code) as u8),
        !(code matches ResponseCode::Unknown(u) && u < 6) ==> rcode_of(
            (bits & 0xfff0) | code_value(code),
        ) == code,
{
    let v = code_value(code);
    assert(v < 16 ==> ((bits & 0xfff0) | v) & 0xfff0 == bits & 0xfff0) by (bit_vector);
    assert(v < 16 ==> ((bits & 0xfff0) | v) & 0xf == v) by (bit_vector);
}

} // verus!

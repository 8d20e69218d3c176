//! An earlier form of answer records: address data, or raw bytes.
use vstd::prelude::*;

use super::name::{Name, name_at};
use crate::io::IoError;
use crate::reader::{PacketReader, Parsed, parse_bytes, u16_at, u32_at};

verus! {

/// The data of an answer.
#[derive(Debug)]
pub enum Data {
    A([u8; 4]),
    AAAA([u8; 16]),
    Unknown(Vec<u8>),
}

/// The content of answer data.
pub enum AnswerDataView {
    A(Seq<u8>),
    AAAA(Seq<u8>),
    Unknown(Seq<u8>),
}

impl View for Data {
    type V = AnswerDataView;

    open spec fn view(&self) -> AnswerDataView {
        match self {
            Data::A(b) => AnswerDataView::A(b@),
            Data::AAAA(b) => AnswerDataView::AAAA(b@),
            Data::Unknown(v) => AnswerDataView::Unknown(v@),
        }
    }
}

/// An answer as read from the wire.
#[derive(Debug)]
pub struct Answer {
    name: Name,
    record_type: u16,
    class: u16,
    ttl: u32,
    data_length: u16,
    data: Data,
}

/// The content of an answer.
pub struct AnswerView {
    pub name: Seq<Seq<u8>>,
    pub record_type: u16,
    pub class: u16,
    pub ttl: u32,
    pub data_length: u16,
    pub data: AnswerDataView,
}

impl View for Answer {
    type V = AnswerView;

    closed spec fn view(&self) -> AnswerView {
        AnswerView {
            name: self.name@,
            record_type: self.record_type,
            class: self.class,
            ttl: self.ttl,
            data_length: self.data_length,
            data: self.data@,
        }
    }
}

/// The answer at `pos`: name, type, class, time to live, data length, then
/// four bytes for type 1, sixteen for type 28, else as many raw bytes as the
/// data length announces.
pub open spec fn parse_answer(d: Seq<u8>, pos: int) -> Parsed<AnswerView> {
    match name_at(d, pos) {
        Parsed::Done(name, p) => if p + 10 > d.len() {
            Parsed::Eof
        } else {
            let t = u16_at(d, p);
            let len = u16_at(d, p + 8);
            let data = if t == 1 {
                match parse_bytes(d, p + 10, 4) {
                    Parsed::Done(b, end) => Parsed::Done(AnswerDataView::A(b), end),
                    _ => Parsed::Eof,
                }
            } else if t == 28 {
                match parse_bytes(d, p + 10, 16) {
                    Parsed::Done(b, end) => Parsed::Done(AnswerDataView::AAAA(b), end),
                    _ => Parsed::Eof,
                }
            } else {
                match parse_bytes(d, p + 10, len as int) {
                    Parsed::Done(b, end) => Parsed::Done(AnswerDataView::Unknown(b), end),
                    _ => Parsed::Eof,
                }
            };
            match data {
                Parsed::Done(v, end) => Parsed::Done(
                    AnswerView {
                        name,
                        record_type: t,
                        class: u16_at(d, p + 2),
                        ttl: u32_at(d, p + 4),
                        data_length: len,
                        data: v,
                    },
                    end,
                ),
                _ => Parsed::Eof,
            }
        },
        Parsed::Eof => Parsed::Eof,
        Parsed::Fault => Parsed::Fault,
    }
}

/// An answer is laid out as RFC 1035 has it: after the owner name come the
/// type and the class, two big-endian bytes each, the time to live in four,
/// the data length in two, and then the data, four address bytes for type
/// 1.
pub proof fn lemma_answer_layout(d: Seq<u8>, pos: int)
    ensures
        parse_answer(d, pos) matches Parsed::Done(a, end) ==> (name_at(d, pos) matches Parsed::Done(
            ls,
            q,
        ) && {
            &&& a.name == ls
            &&& 0 <= q && q + 10 <= end <= d.len()
            &&& a.record_type as int == d[q] as int * 256 + d[q + 1] as int
            &&& a.class as int == d[q + 2] as int * 256 + d[q + 3] as int
            &&& a.ttl as int == d[q + 4] as int * 0x100_0000 + d[q + 5] as int * 0x1_0000 + d[q
                + 6] as int * 256 + d[q + 7] as int
            &&& a.data_length as int == d[q + 8] as int * 256 + d[q + 9] as int
            &&& a.record_type == 1 ==> a.data == AnswerDataView::A(d.subrange(q + 10, q + 14))
                && end == q + 14
        }),
{
    super::name::lemma_name_end(d, pos, super::name::MAX_POINTER_JUMPS as nat);
}

impl Answer {
    /// Whether `read` (or `PacketReader::read_answer`) may be called at the
    /// reader's position: the name there has no label that is not UTF-8 and
    /// no endless pointer chain.
    pub fn reads_without_fault(reader: &PacketReader) -> (r: bool)
        ensures
            r == !(parse_answer(reader.packet(), reader.offset()) is Fault),
    {
        Name::decodes_without_fault(reader)
    }

    /// Reads an answer.
    pub fn read(reader: &mut PacketReader) -> (r: Result<Answer, IoError>)
        requires
            !(parse_answer(old(reader).packet(), old(reader).offset()) is Fault),
        ensures
            final(reader).packet() == old(reader).packet(),
            match parse_answer(old(reader).packet(), old(reader).offset()) {
                Parsed::Done(a, end) => r matches Ok(x) && x@ == a && final(reader).offset() == end,
                _ => r matches Err(e) && e.kind == crate::io::ErrorKind::UnexpectedEof
                    && final(reader).offset() == old(reader).packet().len(),
            },
    {
        proof {
            super::name::lemma_name_end(
                reader.packet(),
                reader.offset(),
                super::name::MAX_POINTER_JUMPS as nat,
            );
        }
        let name = Name::decode(reader)?;
        let record_type: u16 = reader.read_u16()?;
        let class: u16 = reader.read_u16()?;
        let ttl: u32 = reader.read_u32()?;
        let data_length: u16 = reader.read_u16()?;
        let data = if record_type == 1 {
            Data::A(reader.read_array4()?)
        } else if record_type == 28 {
            Data::AAAA(reader.read_array16()?)
        } else {
            Data::Unknown(reader.read_vec(data_length as usize)?)
        };
        Ok(Answer { name, record_type, class, ttl, data_length, data })
    }
}

} // verus!

//! The question section entry: a name, a record type and a class.
use vstd::prelude::*;

use super::name::{Name, encode_name, labels_fit, lemma_name_round_trip, name_at};
use crate::reader::{lemma_be16, lemma_window};
use crate::text::all_utf8;
use crate::io::{ErrorKind, IoError};
use crate::reader::{PacketReader, Parsed, Stop, parse_u16};
use crate::writer::{PacketWriter, WriteResult, be16};

verus! {

/// A question: which records of which class are asked for, under which name.
#[derive(Debug, PartialEq, Eq, Clone)]
pub struct Question {
    pub name: Name,
    pub record_type: u16,
    pub class: u16,
}

/// The content of a question.
pub struct QuestionView {
    pub name: Seq<Seq<u8>>,
    pub record_type: u16,
    pub class: u16,
}

impl View for Question {
    type V = QuestionView;

    open spec fn view(&self) -> QuestionView {
        QuestionView { name: self.name@, record_type: self.record_type, class: self.class }
    }
}

/// The question at `pos`: a name, then type and class.
pub open spec fn parse_question(d: Seq<u8>, pos: int) -> Parsed<QuestionView> {
    match name_at(d, pos) {
        Parsed::Done(name, p) => match (parse_u16(d, p), parse_u16(d, p + 2)) {
            (Parsed::Done(t, _), Parsed::Done(c, end)) => Parsed::Done(
                QuestionView { name, record_type: t, class: c },
                end,
            ),
            _ => Parsed::Eof,
        },
        Parsed::Eof => Parsed::Eof,
        Parsed::Fault => Parsed::Fault,
    }
}

/// The wire form of a question.
pub open spec fn encode_question(q: QuestionView) -> Seq<u8> {
    encode_name(q.name) + be16(q.record_type) + be16(q.class)
}

/// The questions whose names can be written and read back: labels of 1 to
/// 63 well-formed UTF-8 bytes.
pub open spec fn question_fits(q: QuestionView) -> bool {
    labels_fit(q.name) && all_utf8(q.name)
}

/// Decoding reads back a question where its wire form stands.
pub proof fn lemma_question_round_trip(d: Seq<u8>, p: int, q: QuestionView)
    requires
        question_fits(q),
        0 <= p,
        p + encode_question(q).len() <= d.len(),
        d.subrange(p, p + encode_question(q).len()) == encode_question(q),
    ensures
        parse_question(d, p) == Parsed::Done(q, p + encode_question(q).len()),
{
    let en = encode_name(q.name);
    let bt = be16(q.record_type);
    let bc = be16(q.class);
    lemma_window(d, p, en + bt, bc);
    lemma_window(d, p, en, bt);
    lemma_name_round_trip(d, p, q.name, super::name::MAX_POINTER_JUMPS as nat);
    lemma_be16(d, p + en.len(), q.record_type);
    lemma_be16(d, p + en.len() + 2, q.class);
}

impl Question {
    /// A copy of the question.
    pub fn duplicate(&self) -> (r: Question)
        ensures
            r@ == self@,
    {
        Question { name: self.name.duplicate(), record_type: self.record_type, class: self.class }
    }

    /// Reads a question, telling a fault apart from the end of the packet.
    pub(crate) fn decode_inner(reader: &mut PacketReader) -> (r: Result<Question, Stop>)
        ensures
            final(reader).packet() == old(reader).packet(),
            match parse_question(old(reader).packet(), old(reader).offset()) {
                Parsed::Done(q, end) => r matches Ok(x) && x@ == q && final(reader).offset() == end,
                Parsed::Eof => r == Err::<Question, Stop>(Stop::Eof) && final(reader).offset()
                    == old(reader).packet().len(),
                Parsed::Fault => r == Err::<Question, Stop>(Stop::Fault),
            },
    {
        let name = Name::decode_with_fuel(reader, super::name::MAX_POINTER_JUMPS)?;
        let record_type: u16 = match reader.read_u16() {
            Ok(v) => v,
            Err(_) => {
                return Err(Stop::Eof);
            },
        };
        let class: u16 = match reader.read_u16() {
            Ok(v) => v,
            Err(_) => {
                return Err(Stop::Eof);
            },
        };
        Ok(Question { name, record_type, class })
    }

    /// Whether `decode` (or `PacketReader::read_question`) may be called at
    /// the reader's position: the name there has no label that is not UTF-8
    /// and no endless pointer chain.
    pub fn decodes_without_fault(reader: &PacketReader) -> (r: bool)
        ensures
            r == !(parse_question(reader.packet(), reader.offset()) is Fault),
    {
        let mut probe = reader.copy();
        match Self::decode_inner(&mut probe) {
            Err(Stop::Fault) => false,
            _ => true,
        }
    }

    /// Reads a question: its name, then type and class.
    pub fn decode(reader: &mut PacketReader) -> (r: Result<Question, IoError>)
        requires
            !(parse_question(old(reader).packet(), old(reader).offset()) is Fault),
        ensures
            final(reader).packet() == old(reader).packet(),
            match parse_question(old(reader).packet(), old(reader).offset()) {
                Parsed::Done(q, end) => r matches Ok(x) && x@ == q && final(reader).offset() == end,
                _ => r matches Err(e) && e.kind == ErrorKind::UnexpectedEof && final(reader).offset()
                    == old(reader).packet().len(),
            },
    {
        match Self::decode_inner(reader) {
            Ok(q) => Ok(q),
            Err(_) => Err(IoError::unexpected_eof()),
        }
    }

    /// Writes the question; the count is the bytes written.
    pub fn encode(&self, writer: &mut PacketWriter) -> (r: WriteResult)
        ensures
            final(writer)@ == old(writer)@ + encode_question(self@),
            r == Ok::<usize, IoError>(encode_question(self@).len() as usize),
    {
        let start: usize = writer.len();
        let _ = self.name.encode(writer);
        let _ = writer.write_u16(self.record_type);
        let _ = writer.write_u16(self.class);
        assert(writer@ =~= old(writer)@ + encode_question(self@));
        let end: usize = writer.len();
        Ok(end - start)
    }
}

} // verus!

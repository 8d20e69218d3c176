//! DNS messages: decoding a packet into sections and encoding them back.
pub mod answer;
pub mod flags;
pub mod header;
pub mod name;
pub mod question;
pub mod record;

use vstd::prelude::*;
use vstd::std_specs::convert::FromSpecImpl;

use crate::address::{AddrView, IpAddress, ServerAddr, addr_views};
use crate::dns::flags::{Flags, ResponseCode, code_value};
use crate::dns::header::{Header, HeaderFields, WireHeader, encode_header, lemma_header_round_trip, parse_header};
use crate::dns::name::Name;
use crate::dns::question::{Question, QuestionView, encode_question, parse_question};
use crate::dns::record::{
    Data,
    DataView,
    Record,
    RecordError,
    RecordView,
    WireRecord,
    WireRecordView,
    consistent,
    data_len,
    encode_record,
    parse_record,
    record_of,
};
use crate::io::{ErrorKind, IoError};
use crate::reader::{PacketReader, Parsed, Stop, lemma_be16, lemma_window};
use crate::dns::question::{lemma_question_round_trip, question_fits};
use crate::dns::record::{lemma_record_round_trip, record_fits, wire_of};
use crate::text::all_utf8;
use crate::writer::{PacketWriter, be16};
use crate::{OwnedPacket, Packet};

verus! {

/// Why a packet could not be decoded or a message encoded.
#[derive(Debug)]
pub enum DnsError {
    /// The packet ended too early.
    IO(IoError),
    /// A section holds more entries than a 16-bit count can announce.
    TryFromIntError(core::num::TryFromIntError),
    /// A record's announced data length does not match its data.
    RecordError(RecordError),
}

impl From<IoError> for DnsError {
    fn from(value: IoError) -> (r: Self)
        ensures
            r == DnsError::IO(value),
    {
        DnsError::IO(value)
    }
}

impl FromSpecImpl<IoError> for DnsError {
    open spec fn obeys_from_spec() -> bool {
        true
    }

    open spec fn from_spec(v: IoError) -> DnsError {
        DnsError::IO(v)
    }
}

impl From<core::num::TryFromIntError> for DnsError {
    fn from(value: core::num::TryFromIntError) -> (r: Self)
        ensures
            r == DnsError::TryFromIntError(value),
    {
        DnsError::TryFromIntError(value)
    }
}

impl FromSpecImpl<core::num::TryFromIntError> for DnsError {
    open spec fn obeys_from_spec() -> bool {
        true
    }

    open spec fn from_spec(v: core::num::TryFromIntError) -> DnsError {
        DnsError::TryFromIntError(v)
    }
}

impl From<RecordError> for DnsError {
    fn from(value: RecordError) -> (r: Self)
        ensures
            r == DnsError::RecordError(value),
    {
        Self::RecordError(value)
    }
}

impl FromSpecImpl<RecordError> for DnsError {
    open spec fn obeys_from_spec() -> bool {
        true
    }

    open spec fn from_spec(v: RecordError) -> DnsError {
        DnsError::RecordError(v)
    }
}

/// A name server named in the authority section, with the addresses that
/// the additional section gives for it (its glue).
#[derive(Debug, Clone, PartialEq, Eq)]
pub struct ReferralServer<'a> {
    pub name: &'a Name,
    pub addrs: Vec<ServerAddr>,
}

/// The content of a referral: the server's name and its addresses.
pub struct ReferralView {
    pub name: Seq<Seq<u8>>,
    pub addrs: Seq<AddrView>,
}

impl<'a> View for ReferralServer<'a> {
    type V = ReferralView;

    open spec fn view(&self) -> ReferralView {
        ReferralView { name: self.name@, addrs: addr_views(self.addrs@) }
    }
}

/// The referrals of a vector.
pub open spec fn referral_views(v: Seq<ReferralServer>) -> Seq<ReferralView> {
    v.map_values(|r: ReferralServer| r@)
}

impl<'a> ReferralServer<'a> {
    /// The name of the name server.
    pub fn ns_name(&self) -> (r: &'a Name)
        ensures
            r@ == self@.name,
    {
        self.name
    }

    /// Whether the message gave addresses for the server.
    pub fn has_glue(&self) -> (r: bool)
        ensures
            r == (self@.addrs.len() > 0),
    {
        self.addrs.len() > 0
    }

    /// The server's addresses.
    pub fn into_addrs(self) -> (r: Vec<ServerAddr>)
        ensures
            addr_views(r@) == self@.addrs,
    {
        self.addrs
    }
}

/// A DNS message: header, questions, answers, authority and additional
/// records.
#[derive(Debug, Clone, PartialEq, Eq)]
pub struct Message {
    header: Header,
    questions: Vec<Question>,
    answers: Vec<Record>,
    authorities: Vec<Record>,
    additionals: Vec<Record>,
}

/// The content of a message.
pub struct MessageView {
    pub id: u16,
    pub flags: u16,
    pub questions: Seq<QuestionView>,
    pub answers: Seq<RecordView>,
    pub authorities: Seq<RecordView>,
    pub additionals: Seq<RecordView>,
}

/// The questions of a vector.
pub open spec fn question_views(v: Seq<Question>) -> Seq<QuestionView> {
    v.map_values(|q: Question| q@)
}

/// The wire records of a vector.
pub open spec fn wire_views(v: Seq<WireRecord>) -> Seq<WireRecordView> {
    v.map_values(|w: WireRecord| w@)
}

/// The records of a vector.
pub open spec fn record_views(v: Seq<Record>) -> Seq<RecordView> {
    v.map_values(|r: Record| r@)
}

impl View for Message {
    type V = MessageView;

    closed spec fn view(&self) -> MessageView {
        MessageView {
            id: self.header@.0,
            flags: self.header@.1,
            questions: question_views(self.questions@),
            answers: record_views(self.answers@),
            authorities: record_views(self.authorities@),
            additionals: record_views(self.additionals@),
        }
    }
}

/// The same message with another flags word.
pub open spec fn with_flags(m: MessageView, flags: u16) -> MessageView {
    MessageView { flags, ..m }
}

/// The address, on port 53, that an address record gives for `ns`.
pub open spec fn glue_of(r: RecordView, ns: Seq<Seq<u8>>) -> Seq<AddrView> {
    if r.name == ns {
        match r.data {
            DataView::A(b) => seq![AddrView { v6: false, octets: b, port: 53 }],
            DataView::Aaaa(b) => seq![AddrView { v6: true, octets: b, port: 53 }],
            _ => seq![],
        }
    } else {
        seq![]
    }
}

/// The addresses that the records give for `ns`, in record order.
pub open spec fn glue_addrs(adds: Seq<RecordView>, ns: Seq<Seq<u8>>) -> Seq<AddrView>
    decreases adds.len(),
{
    if adds.len() == 0 {
        seq![]
    } else {
        glue_addrs(adds.drop_last(), ns) + glue_of(adds.last(), ns)
    }
}

/// One referral for each name server record among `auths`, in order, with
/// its glue from `adds`.
pub open spec fn referrals_of(auths: Seq<RecordView>, adds: Seq<RecordView>) -> Seq<ReferralView>
    decreases auths.len(),
{
    if auths.len() == 0 {
        seq![]
    } else {
        referrals_of(auths.drop_last(), adds) + match auths.last().data {
            DataView::Ns(n) => seq![ReferralView { name: n, addrs: glue_addrs(adds, n) }],
            _ => seq![],
        }
    }
}

/// The records of a section that name a name server.
pub open spec fn ns_records() -> spec_fn(RecordView) -> bool {
    |r: RecordView| r.data is Ns
}

/// Each name server record of the authority section yields one referral,
/// in the order of the section: the referrals are as many as those records,
/// and the `i`-th names the server of the `i`-th of them, with the
/// addresses that the additional section gives for that server.
pub proof fn lemma_referrals_follow_ns_records(auths: Seq<RecordView>, adds: Seq<RecordView>)
    ensures
        referrals_of(auths, adds).len() == auths.filter(ns_records()).len(),
        forall|i: int|
            0 <= i < referrals_of(auths, adds).len() ==> {
                let n = auths.filter(ns_records())[i].data->Ns_0;
                #[trigger] referrals_of(auths, adds)[i] == (ReferralView {
                    name: n,
                    addrs: glue_addrs(adds, n),
                })
            },
    decreases auths.len(),
{
    reveal(Seq::filter);
    if auths.len() > 0 {
        lemma_referrals_follow_ns_records(auths.drop_last(), adds);
        let prev = referrals_of(auths.drop_last(), adds);
        let f = auths.drop_last().filter(ns_records());
        assert(auths.filter(ns_records()) == if (ns_records())(auths.last()) {
            f.push(auths.last())
        } else {
            f
        });
        if auths.last().data is Ns {
            assert forall|i: int|
                0 <= i < referrals_of(auths, adds).len() implies {
                    let n = auths.filter(ns_records())[i].data->Ns_0;
                    #[trigger] referrals_of(auths, adds)[i] == (ReferralView {
                        name: n,
                        addrs: glue_addrs(adds, n),
                    })
                } by {
                if i < prev.len() {
                    assert(referrals_of(auths, adds)[i] == prev[i]);
                    assert(auths.filter(ns_records())[i] == f[i]);
                }
            }
        } else {
            assert(referrals_of(auths, adds) =~= prev);
        }
    }
}

/// The referrals that have glue.
pub open spec fn with_glue(rs: Seq<ReferralView>) -> Seq<ReferralView>
    decreases rs.len(),
{
    if rs.len() == 0 {
        seq![]
    } else {
        with_glue(rs.drop_last()) + if rs.last().addrs.len() > 0 {
            seq![rs.last()]
        } else {
            seq![]
        }
    }
}

/// `n` questions read one after another from `pos`.
pub open spec fn parse_questions(d: Seq<u8>, pos: int, n: nat) -> Parsed<Seq<QuestionView>>
    decreases n,
{
    if n == 0 {
        Parsed::Done(seq![], pos)
    } else {
        match parse_questions(d, pos, (n - 1) as nat) {
            Parsed::Done(qs, p) => match parse_question(d, p) {
                Parsed::Done(q, end) => Parsed::Done(qs.push(q), end),
                Parsed::Eof => Parsed::Eof,
                Parsed::Fault => Parsed::Fault,
            },
            Parsed::Eof => Parsed::Eof,
            Parsed::Fault => Parsed::Fault,
        }
    }
}

/// `n` records read one after another from `pos`.
pub open spec fn parse_records(d: Seq<u8>, pos: int, n: nat) -> Parsed<Seq<WireRecordView>>
    decreases n,
{
    if n == 0 {
        Parsed::Done(seq![], pos)
    } else {
        match parse_records(d, pos, (n - 1) as nat) {
            Parsed::Done(ws, p) => match parse_record(d, p) {
                Parsed::Done(w, end) => Parsed::Done(ws.push(w), end),
                Parsed::Eof => Parsed::Eof,
                Parsed::Fault => Parsed::Fault,
            },
            Parsed::Eof => Parsed::Eof,
            Parsed::Fault => Parsed::Fault,
        }
    }
}

/// Every wire record's data length matches its data.
pub open spec fn all_consistent(ws: Seq<WireRecordView>) -> bool {
    forall|i: int| 0 <= i < ws.len() ==> consistent(#[trigger] ws[i])
}

/// The records that wire records stand for.
pub open spec fn records_of(ws: Seq<WireRecordView>) -> Seq<RecordView> {
    ws.map_values(|w: WireRecordView| record_of(w))
}

/// The outcome of decoding a packet: a message, the end of the packet
/// reached too early, a record whose data length does not match, or an input
/// the decoder never returns from.
pub enum Decoded {
    Message(MessageView),
    Eof,
    Inconsistent,
    Fault,
}

/// One section of records at `pos`: `Ok` with the records and the offset
/// past them, or `Err` with how decoding stops.
pub open spec fn section_at(d: Seq<u8>, pos: int, n: u16) -> Result<(Seq<RecordView>, int), Decoded> {
    match parse_records(d, pos, n as nat) {
        Parsed::Done(ws, end) => if all_consistent(ws) {
            Ok((records_of(ws), end))
        } else {
            Err(Decoded::Inconsistent)
        },
        Parsed::Eof => Err(Decoded::Eof),
        Parsed::Fault => Err(Decoded::Fault),
    }
}

/// The message a packet decodes to: the header, then the announced numbers
/// of questions, answers, authority and additional records in turn; each
/// section of records is checked once it is read.
pub open spec fn decode_message(d: Seq<u8>) -> Decoded {
    match parse_header(d, 0) {
        Parsed::Done(h, p0) => match parse_questions(d, p0, h.question_count as nat) {
            Parsed::Done(qs, p1) => match section_at(d, p1, h.answer_count) {
                Ok((an, p2)) => match section_at(d, p2, h.authority_count) {
                    Ok((ns, p3)) => match section_at(d, p3, h.additional_count) {
                        Ok((ar, _)) => Decoded::Message(
                            MessageView {
                                id: h.id,
                                flags: h.flags,
                                questions: qs,
                                answers: an,
                                authorities: ns,
                                additionals: ar,
                            },
                        ),
                        Err(e) => e,
                    },
                    Err(e) => e,
                },
                Err(e) => e,
            },
            Parsed::Eof => Decoded::Eof,
            Parsed::Fault => Decoded::Fault,
        },
        _ => Decoded::Eof,
    }
}

/// The questions written one after another.
pub open spec fn encode_questions(qs: Seq<QuestionView>) -> Seq<u8>
    decreases qs.len(),
{
    if qs.len() == 0 {
        seq![]
    } else {
        encode_questions(qs.drop_last()) + encode_question(qs.last())
    }
}

/// The records written one after another.
pub open spec fn encode_records(rs: Seq<RecordView>) -> Seq<u8>
    decreases rs.len(),
{
    if rs.len() == 0 {
        seq![]
    } else {
        encode_records(rs.drop_last()) + encode_record(rs.last())
    }
}

/// Every record's data fits the 16-bit data length field.
pub open spec fn records_encodable(rs: Seq<RecordView>) -> bool {
    forall|i: int| 0 <= i < rs.len() ==> data_len(#[trigger] rs[i].data) <= 65535
}

/// Every record of the message can be encoded.
pub open spec fn message_encodable(m: MessageView) -> bool {
    records_encodable(m.answers) && records_encodable(m.authorities) && records_encodable(
        m.additionals,
    )
}

/// Every section has at most 65535 entries.
pub open spec fn counts_fit(m: MessageView) -> bool {
    m.questions.len() <= 65535 && m.answers.len() <= 65535 && m.authorities.len() <= 65535
        && m.additionals.len() <= 65535
}

/// The wire form of a message: id, flags, the four counts, then the
/// sections in order, names uncompressed.
pub open spec fn encode_message(m: MessageView) -> Seq<u8> {
    encode_header(header_of(m)) + encode_questions(m.questions) + encode_records(m.answers)
        + encode_records(m.authorities) + encode_records(m.additionals)
}

/// The header a message is written with: its id and flags, and the numbers
/// of entries in its sections.
pub open spec fn header_of(m: MessageView) -> HeaderFields {
    HeaderFields {
        id: m.id,
        flags: m.flags,
        question_count: m.questions.len() as u16,
        answer_count: m.answers.len() as u16,
        authority_count: m.authorities.len() as u16,
        additional_count: m.additionals.len() as u16,
    }
}

/// Once reading a run of questions stops, reading more stops the same way.
proof fn lemma_questions_stop(d: Seq<u8>, pos: int, i: nat, n: nat)
    requires
        i <= n,
        !(parse_questions(d, pos, i) is Done),
    ensures
        parse_questions(d, pos, n) == parse_questions(d, pos, i),
    decreases n,
{
    if n > i {
        lemma_questions_stop(d, pos, i, (n - 1) as nat);
    }
}

/// Once reading a run of records stops, reading more stops the same way.
proof fn lemma_records_stop(d: Seq<u8>, pos: int, i: nat, n: nat)
    requires
        i <= n,
        !(parse_records(d, pos, i) is Done),
    ensures
        parse_records(d, pos, n) == parse_records(d, pos, i),
    decreases n,
{
    if n > i {
        lemma_records_stop(d, pos, i, (n - 1) as nat);
    }
}

/// Every question fits the wire format.
pub open spec fn questions_fit(qs: Seq<QuestionView>) -> bool {
    forall|i: int| 0 <= i < qs.len() ==> question_fits(#[trigger] qs[i])
}

/// Every name of the records, and every name their data holds, is of
/// well-formed UTF-8 labels.
pub open spec fn records_utf8(rs: Seq<RecordView>) -> bool {
    forall|i: int|
        0 <= i < rs.len() ==> {
            &&& all_utf8((#[trigger] rs[i]).name)
            &&& rs[i].data matches DataView::Ns(n) ==> all_utf8(n)
        }
}

/// Every record fits the wire format.
pub open spec fn records_fit_wire(rs: Seq<RecordView>) -> bool {
    forall|i: int| 0 <= i < rs.len() ==> record_fits(#[trigger] rs[i])
}

/// The messages that encoding and decoding carry unchanged: at most 65535
/// entries per section, names of labels with 1 to 63 well-formed UTF-8
/// bytes, and records that fit the wire format.
pub open spec fn message_fits(m: MessageView) -> bool {
    &&& counts_fit(m)
    &&& questions_fit(m.questions)
    &&& records_fit_wire(m.answers)
    &&& records_fit_wire(m.authorities)
    &&& records_fit_wire(m.additionals)
}

/// Questions written one after another read back in order.
pub proof fn lemma_questions_round_trip(d: Seq<u8>, p: int, qs: Seq<QuestionView>)
    requires
        questions_fit(qs),
        0 <= p,
        p + encode_questions(qs).len() <= d.len(),
        d.subrange(p, p + encode_questions(qs).len()) == encode_questions(qs),
    ensures
        parse_questions(d, p, qs.len()) == Parsed::Done(qs, p + encode_questions(qs).len()),
    decreases qs.len(),
{
    if qs.len() == 0 {
        assert(qs =~= Seq::<QuestionView>::empty());
    } else {
        let init = qs.drop_last();
        let a = encode_questions(init);
        let b = encode_question(qs.last());
        lemma_window(d, p, a, b);
        assert(questions_fit(init));
        lemma_questions_round_trip(d, p, init);
        assert(question_fits(qs[qs.len() - 1]));
        lemma_question_round_trip(d, p + a.len(), qs.last());
        assert(init.push(qs.last()) =~= qs);
    }
}

/// Records written one after another read back in order, each with a data
/// length that matches its data.
pub proof fn lemma_records_round_trip(d: Seq<u8>, p: int, rs: Seq<RecordView>)
    requires
        records_fit_wire(rs),
        0 <= p,
        p + encode_records(rs).len() <= d.len(),
        d.subrange(p, p + encode_records(rs).len()) == encode_records(rs),
    ensures
        parse_records(d, p, rs.len()) == Parsed::Done(
            rs.map_values(|r: RecordView| wire_of(r)),
            p + encode_records(rs).len(),
        ),
        all_consistent(rs.map_values(|r: RecordView| wire_of(r))),
        records_of(rs.map_values(|r: RecordView| wire_of(r))) == rs,
    decreases rs.len(),
{
    let ws = rs.map_values(|r: RecordView| wire_of(r));
    if rs.len() == 0 {
        assert(ws =~= Seq::<WireRecordView>::empty());
        assert(records_of(ws) =~= rs);
    } else {
        let init = rs.drop_last();
        let a = encode_records(init);
        let b = encode_record(rs.last());
        lemma_window(d, p, a, b);
        assert(records_fit_wire(init));
        lemma_records_round_trip(d, p, init);
        assert(record_fits(rs[rs.len() - 1]));
        lemma_record_round_trip(d, p + a.len(), rs.last());
        let wi = init.map_values(|r: RecordView| wire_of(r));
        assert(wi.push(wire_of(rs.last())) =~= ws);
        assert forall|i: int| 0 <= i < ws.len() implies consistent(#[trigger] ws[i]) by {
            if i < ws.len() - 1 {
                assert(ws[i] == wi[i]);
            }
        }
        assert(records_of(ws) =~= rs) by {
            assert forall|i: int| 0 <= i < rs.len() implies records_of(ws)[i] == rs[i] by {
                if i < rs.len() - 1 {
                    assert(records_of(wi)[i] == init[i]);
                    assert(ws[i] == wi[i]);
                }
            }
        }
    }
}

/// A section written with its records reads back as those records.
proof fn lemma_section_round_trip(d: Seq<u8>, p: int, rs: Seq<RecordView>)
    requires
        records_fit_wire(rs),
        rs.len() <= 65535,
        0 <= p,
        p + encode_records(rs).len() <= d.len(),
        d.subrange(p, p + encode_records(rs).len()) == encode_records(rs),
    ensures
        section_at(d, p, rs.len() as u16) == Ok::<(Seq<RecordView>, int), Decoded>(
            (rs, p + encode_records(rs).len()),
        ),
{
    lemma_records_round_trip(d, p, rs);
}

/// A run of questions read has as many questions as were asked for.
proof fn lemma_questions_count(d: Seq<u8>, pos: int, n: nat)
    ensures
        parse_questions(d, pos, n) matches Parsed::Done(qs, _) ==> qs.len() == n,
    decreases n,
{
    if n > 0 {
        lemma_questions_count(d, pos, (n - 1) as nat);
    }
}

/// A run of records read has as many records as were asked for.
proof fn lemma_records_count(d: Seq<u8>, pos: int, n: nat)
    ensures
        parse_records(d, pos, n) matches Parsed::Done(ws, _) ==> ws.len() == n,
    decreases n,
{
    if n > 0 {
        lemma_records_count(d, pos, (n - 1) as nat);
    }
}

/// A checked section has the announced number of records, each of whose data
/// fits the 16-bit length field.
proof fn lemma_section_encodable(d: Seq<u8>, pos: int, n: u16)
    ensures
        section_at(d, pos, n) matches Ok((rs, _)) ==> rs.len() == n && records_encodable(rs),
{
    lemma_records_count(d, pos, n as nat);
    if let Parsed::Done(ws, _) = parse_records(d, pos, n as nat) {
        if all_consistent(ws) {
            let rs = records_of(ws);
            assert forall|i: int| 0 <= i < rs.len() implies data_len(#[trigger] rs[i].data)
                <= 65535 by {
                assert(consistent(ws[i]));
            }
        }
    }
}

/// The big-endian number in the two bytes of `d` at `i`.
pub open spec fn be_pair(d: Seq<u8>, i: int) -> int {
    d[i] as int * 256 + d[i + 1] as int
}

/// A decoded message follows the header layout of RFC 1035: the id and the
/// flags are the first two big-endian pairs of bytes, and its questions,
/// answers, authority records and additional records are as many as the
/// next four pairs announce, in that order.
pub proof fn lemma_decoded_header_layout(d: Seq<u8>)
    ensures
        decode_message(d) matches Decoded::Message(m) ==> {
            &&& d.len() >= 12
            &&& m.id as int == be_pair(d, 0)
            &&& m.flags as int == be_pair(d, 2)
            &&& m.questions.len() == be_pair(d, 4)
            &&& m.answers.len() == be_pair(d, 6)
            &&& m.authorities.len() == be_pair(d, 8)
            &&& m.additionals.len() == be_pair(d, 10)
        },
{
    if let Parsed::Done(h, p0) = parse_header(d, 0) {
        let b = d.subrange(0, 12);
        assert(forall|i: int| 0 <= i < 12 ==> b[i] == d[i]);
        assert(h.id as int == be_pair(d, 0));
        assert(h.flags as int == be_pair(d, 2));
        assert(h.question_count as int == be_pair(d, 4));
        assert(h.answer_count as int == be_pair(d, 6));
        assert(h.authority_count as int == be_pair(d, 8));
        assert(h.additional_count as int == be_pair(d, 10));
        lemma_questions_count(d, p0, h.question_count as nat);
        if let Parsed::Done(qs, p1) = parse_questions(d, p0, h.question_count as nat) {
            lemma_section_encodable(d, p1, h.answer_count);
            if let Ok((an, p2)) = section_at(d, p1, h.answer_count) {
                lemma_section_encodable(d, p2, h.authority_count);
                if let Ok((ns, p3)) = section_at(d, p2, h.authority_count) {
                    lemma_section_encodable(d, p3, h.additional_count);
                }
            }
        }
    }
}

/// Encoding writes the header layout of RFC 1035, then the sections in
/// order: the id and the flags as the first two big-endian pairs of bytes,
/// the numbers of questions, answers, authority records and additional
/// records as the next four, then the questions, the answers, the authority
/// records and the additional records.
pub proof fn lemma_encoded_layout(m: MessageView)
    requires
        counts_fit(m),
    ensures
        encode_message(m).len() >= 12,
        be_pair(encode_message(m), 0) == m.id,
        be_pair(encode_message(m), 2) == m.flags,
        be_pair(encode_message(m), 4) == m.questions.len(),
        be_pair(encode_message(m), 6) == m.answers.len(),
        be_pair(encode_message(m), 8) == m.authorities.len(),
        be_pair(encode_message(m), 10) == m.additionals.len(),
        encode_message(m).subrange(12, encode_message(m).len() as int) == encode_questions(
            m.questions,
        ) + encode_records(m.answers) + encode_records(m.authorities) + encode_records(
            m.additionals,
        ),
{
    let e = encode_message(m);
    let h = encode_header(header_of(m));
    let rest = encode_questions(m.questions) + encode_records(m.answers) + encode_records(
        m.authorities,
    ) + encode_records(m.additionals);
    assert(e =~= h + rest);
    assert(h.len() == 12);
    assert(forall|i: int| 0 <= i < 12 ==> e[i] == h[i]);
    assert(e.subrange(12, e.len() as int) =~= rest);
    assert forall|v: u16| #[trigger] be16(v)[0] as int * 256 + be16(v)[1] as int == v by {
        assert((v / 256) as u8 as int == v / 256);
        assert((v % 256) as u8 as int == v % 256);
    }
    assert(h[0] == be16(m.id)[0] && h[1] == be16(m.id)[1]);
    assert(h[2] == be16(m.flags)[0] && h[3] == be16(m.flags)[1]);
    assert(h[4] == be16(m.questions.len() as u16)[0] && h[5] == be16(m.questions.len() as u16)[1]);
    assert(h[6] == be16(m.answers.len() as u16)[0] && h[7] == be16(m.answers.len() as u16)[1]);
    assert(h[8] == be16(m.authorities.len() as u16)[0] && h[9] == be16(
        m.authorities.len() as u16,
    )[1]);
    assert(h[10] == be16(m.additionals.len() as u16)[0] && h[11] == be16(
        m.additionals.len() as u16,
    )[1]);
    assert(be16(m.id)[0] as int * 256 + be16(m.id)[1] as int == m.id);
    assert(be16(m.flags)[0] as int * 256 + be16(m.flags)[1] as int == m.flags);
    assert(be16(m.questions.len() as u16)[0] as int * 256 + be16(m.questions.len() as u16)[1] as int
        == m.questions.len() as u16);
    assert(be16(m.answers.len() as u16)[0] as int * 256 + be16(m.answers.len() as u16)[1] as int
        == m.answers.len() as u16);
    assert(be16(m.authorities.len() as u16)[0] as int * 256 + be16(m.authorities.len() as u16)[1] as int
        == m.authorities.len() as u16);
    assert(be16(m.additionals.len() as u16)[0] as int * 256 + be16(m.additionals.len() as u16)[1] as int
        == m.additionals.len() as u16);
}

/// A decoded message can be encoded again: its sections have at most 65535
/// entries and every record's data fits the 16-bit length field.
pub proof fn lemma_decoded_encodable(d: Seq<u8>)
    ensures
        decode_message(d) matches Decoded::Message(m) ==> counts_fit(m) && message_encodable(m),
{
    if let Parsed::Done(h, p0) = parse_header(d, 0) {
        lemma_questions_count(d, p0, h.question_count as nat);
        if let Parsed::Done(qs, p1) = parse_questions(d, p0, h.question_count as nat) {
            lemma_section_encodable(d, p1, h.answer_count);
            if let Ok((an, p2)) = section_at(d, p1, h.answer_count) {
                lemma_section_encodable(d, p2, h.authority_count);
                if let Ok((ns, p3)) = section_at(d, p2, h.authority_count) {
                    lemma_section_encodable(d, p3, h.additional_count);
                }
            }
        }
    }
}

/// Where the parts of a message's encoding stand.
proof fn lemma_message_layout(m: MessageView)
    ensures
        ({
            let d = encode_message(m);
            let eq = encode_questions(m.questions);
            let ea = encode_records(m.answers);
            let en = encode_records(m.authorities);
            let er = encode_records(m.additionals);
            let p1: int = 12 + eq.len() as int;
            let p2: int = p1 + ea.len() as int;
            let p3: int = p2 + en.len() as int;
            &&& d.len() == p3 + er.len()
            &&& d.subrange(0, 12) == encode_header(header_of(m))
            &&& d.subrange(12, p1) == eq
            &&& d.subrange(p1, p2) == ea
            &&& d.subrange(p2, p3) == en
            &&& d.subrange(p3, p3 + er.len() as int) == er
        }),
{
    let d = encode_message(m);
    let h = encode_header(header_of(m));
    let eq = encode_questions(m.questions);
    let ea = encode_records(m.answers);
    let en = encode_records(m.authorities);
    let er = encode_records(m.additionals);
    assert(h.len() == 12);
    assert(d.subrange(0, d.len() as int) =~= d);
    lemma_window(d, 0, h + eq + ea + en, er);
    lemma_window(d, 0, h + eq + ea, en);
    lemma_window(d, 0, h + eq, ea);
    lemma_window(d, 0, h, eq);
}

/// A message is read back from its own encoding: decoding the bytes that
/// encoding produces gives the same id, flags and sections.
pub proof fn lemma_message_round_trip(m: MessageView)
    requires
        message_fits(m),
    ensures
        decode_message(encode_message(m)) == Decoded::Message(m),
{
    let d = encode_message(m);
    let eq = encode_questions(m.questions);
    let ea = encode_records(m.answers);
    let en = encode_records(m.authorities);
    let p1: int = 12 + eq.len() as int;
    let p2: int = p1 + ea.len();
    let p3: int = p2 + en.len();
    lemma_message_layout(m);
    lemma_header_round_trip(d, 0, header_of(m));
    lemma_questions_round_trip(d, 12, m.questions);
    lemma_section_round_trip(d, p1, m.answers);
    lemma_section_round_trip(d, p2, m.authorities);
    lemma_section_round_trip(d, p3, m.additionals);
    assert(header_of(m).question_count as nat == m.questions.len());
}

/// Bytes that this library writes for a message decode and re-encode to the
/// very same bytes.
pub proof fn lemma_reencode(m: MessageView)
    requires
        message_fits(m),
    ensures
        decode_message(encode_message(m)) matches Decoded::Message(x) && encode_message(x)
            == encode_message(m),
{
    lemma_message_round_trip(m);
}

/// How decoding stopped without a message.
enum DecodeStop {
    Error(DnsError),
    Fault,
}

fn decode_questions(reader: &mut PacketReader, n: u16) -> (r: Result<Vec<Question>, Stop>)
    ensures
        final(reader).packet() == old(reader).packet(),
        match parse_questions(old(reader).packet(), old(reader).offset(), n as nat) {
            Parsed::Done(qs, end) => r matches Ok(v) && question_views(v@) == qs
                && final(reader).offset() == end,
            Parsed::Eof => r == Err::<Vec<Question>, Stop>(Stop::Eof),
            Parsed::Fault => r == Err::<Vec<Question>, Stop>(Stop::Fault),
        },
{
    let ghost d = reader.packet();
    let ghost start = reader.offset();
    let mut out: Vec<Question> = Vec::new();
    let mut i: u16 = 0;
    assert(question_views(out@) =~= Seq::<QuestionView>::empty());
    while i < n
        invariant
            0 <= i <= n,
            reader.packet() == d,
            d == old(reader).packet(),
            start == old(reader).offset(),
            parse_questions(d, start, i as nat) == Parsed::Done(
                question_views(out@),
                reader.offset(),
            ),
        decreases n - i,
    {
        let q: Question = match Question::decode_inner(reader) {
            Ok(q) => q,
            Err(e) => {
                proof {
                    lemma_questions_stop(d, start, (i + 1) as nat, n as nat);
                }
                return Err(e);
            },
        };
        proof {
            assert(question_views(out@.push(q)) =~= question_views(out@).push(q@));
        }
        out.push(q);
        i = i + 1;
    }
    Ok(out)
}

fn decode_records(reader: &mut PacketReader, n: u16) -> (r: Result<Vec<WireRecord>, Stop>)
    ensures
        final(reader).packet() == old(reader).packet(),
        match parse_records(old(reader).packet(), old(reader).offset(), n as nat) {
            Parsed::Done(ws, end) => r matches Ok(v) && wire_views(v@) == ws
                && final(reader).offset() == end,
            Parsed::Eof => r == Err::<Vec<WireRecord>, Stop>(Stop::Eof),
            Parsed::Fault => r == Err::<Vec<WireRecord>, Stop>(Stop::Fault),
        },
{
    let ghost d = reader.packet();
    let ghost start = reader.offset();
    let mut out: Vec<WireRecord> = Vec::new();
    let mut i: u16 = 0;
    assert(wire_views(out@) =~= Seq::<WireRecordView>::empty());
    while i < n
        invariant
            0 <= i <= n,
            reader.packet() == d,
            d == old(reader).packet(),
            start == old(reader).offset(),
            parse_records(d, start, i as nat) == Parsed::Done(
                wire_views(out@),
                reader.offset(),
            ),
        decreases n - i,
    {
        let w: WireRecord = match WireRecord::decode_inner(reader) {
            Ok(w) => w,
            Err(e) => {
                proof {
                    lemma_records_stop(d, start, (i + 1) as nat, n as nat);
                }
                return Err(e);
            },
        };
        proof {
            assert(out@.push(w).map_values(|w: WireRecord| w@) =~= wire_views(out@).push(w@));
        }
        out.push(w);
        i = i + 1;
    }
    Ok(out)
}

fn convert_records(ws: Vec<WireRecord>) -> (r: Result<Vec<Record>, RecordError>)
    ensures
        all_consistent(wire_views(ws@)) ==> (r matches Ok(v) && record_views(
            v@,
        ) == records_of(wire_views(ws@))),
        !all_consistent(wire_views(ws@)) ==> r == Err::<Vec<Record>, RecordError>(
            RecordError::InconsistentDataLength,
        ),
{
    let ghost all = wire_views(ws@);
    let mut rest: Vec<WireRecord> = ws;
    let mut out: Vec<Record> = Vec::new();
    while rest.len() > 0
        invariant
            all == wire_views(ws@),
            out@.len() + rest@.len() == all.len(),
            wire_views(rest@) == all.skip(out@.len() as int),
            forall|k: int| 0 <= k < out@.len() ==> consistent(#[trigger] all[k]),
            record_views(out@) == records_of(all.take(out@.len() as int)),
        decreases rest@.len(),
    {
        let ghost k = out@.len() as int;
        let w: WireRecord = rest.remove(0);
        assert(all[k] == w@) by {
            assert(all.skip(k)[0] == all[k]);
        }
        assert(wire_views(rest@) =~= all.skip(k + 1)) by {
            assert forall|j: int| 0 <= j < rest@.len() implies #[trigger] wire_views(rest@)[j] == all.skip(k + 1)[j] by {
                assert(all.skip(k)[j + 1] == all.skip(k + 1)[j]);
            }
        }
        match Record::try_from(w) {
            Ok(rec) => {
                proof {
                    assert(all.take(k + 1) =~= all.take(k).push(all[k]));
                    assert(records_of(all.take(k + 1)) =~= records_of(all.take(k)).push(
                        record_of(all[k]),
                    ));
                    assert(record_views(out@.push(rec)) =~= record_views(out@).push(rec@));
                }
                out.push(rec);
            },
            Err(e) => {
                assert(!consistent(all[k]));
                return Err(e);
            },
        }
    }
    assert(all.take(out@.len() as int) =~= all);
    Ok(out)
}

impl Message {
    /// Every name in a message, of its questions, its records and their
    /// data, is of well-formed UTF-8 labels: the round trip of
    /// `lemma_message_round_trip` needs of a message only that its labels
    /// and records fit the wire format.
    pub proof fn lemma_names_utf8(&self)
        ensures
            forall|i: int|
                0 <= i < self@.questions.len() ==> all_utf8(#[trigger] self@.questions[i].name),
            records_utf8(self@.answers),
            records_utf8(self@.authorities),
            records_utf8(self@.additionals),
    {
        assert forall|i: int| 0 <= i < self@.questions.len() implies all_utf8(
            #[trigger] self@.questions[i].name,
        ) by {
            self.questions@[i].name.lemma_labels_utf8();
        }
        Self::lemma_records_utf8(self.answers@);
        Self::lemma_records_utf8(self.authorities@);
        Self::lemma_records_utf8(self.additionals@);
    }

    proof fn lemma_records_utf8(rs: Seq<Record>)
        ensures
            records_utf8(record_views(rs)),
    {
        assert forall|i: int| 0 <= i < record_views(rs).len() implies {
            &&& all_utf8((#[trigger] record_views(rs)[i]).name)
            &&& record_views(rs)[i].data matches DataView::Ns(n) ==> all_utf8(n)
        } by {
            rs[i].lemma_names_utf8();
        }
    }

    /// A message with the given header and sections.
    pub fn new(
        header: Header,
        questions: Vec<Question>,
        answers: Vec<Record>,
        authorities: Vec<Record>,
        additionals: Vec<Record>,
    ) -> (r: Message)
        ensures
            r@ == (MessageView {
                id: header@.0,
                flags: header@.1,
                questions: question_views(questions@),
                answers: record_views(answers@),
                authorities: record_views(authorities@),
                additionals: record_views(additionals@),
            }),
    {
        Message { header, questions, answers, authorities, additionals }
    }

    /// A query with one question and all flags clear.
    pub fn new_query(id: u16, question: Question) -> (r: Message)
        ensures
            r@ == (MessageView {
                id,
                flags: 0,
                questions: seq![question@],
                answers: seq![],
                authorities: seq![],
                additionals: seq![],
            }),
    {
        let mut questions: Vec<Question> = Vec::new();
        questions.push(question);
        let r = Message {
            header: Header::new(id, Flags::new()),
            questions,
            answers: Vec::new(),
            authorities: Vec::new(),
            additionals: Vec::new(),
        };
        assert(r@.questions =~= seq![question@]);
        assert(r@.answers =~= Seq::<RecordView>::empty());
        assert(r@.authorities =~= Seq::<RecordView>::empty());
        assert(r@.additionals =~= Seq::<RecordView>::empty());
        r
    }

    /// The message id.
    pub fn id(&self) -> (r: u16)
        ensures
            r == self@.id,
    {
        self.header.id()
    }

    /// The header flags.
    pub fn flags(&self) -> (r: Flags)
        ensures
            r@ == self@.flags,
    {
        self.header.flags()
    }

    /// The questions.
    pub fn questions(&self) -> (r: &[Question])
        ensures
            question_views(r@) == self@.questions,
    {
        self.questions.as_slice()
    }

    /// The answer records.
    pub fn answers(&self) -> (r: &[Record])
        ensures
            record_views(r@) == self@.answers,
    {
        self.answers.as_slice()
    }

    /// The authority records.
    pub fn authorities(&self) -> (r: &[Record])
        ensures
            record_views(r@) == self@.authorities,
    {
        self.authorities.as_slice()
    }

    /// The additional records.
    pub fn additionals(&self) -> (r: &[Record])
        ensures
            record_views(r@) == self@.additionals,
    {
        self.additionals.as_slice()
    }

    /// The same message marked as a response (QR bit set).
    pub fn into_response(self) -> (r: Self)
        ensures
            r@ == with_flags(self@, self@.flags | 0x8000),
    {
        Self { header: self.header.into_response(), ..self }
    }

    /// The same message with the RA bit set.
    pub fn with_recursion_available(self) -> (r: Self)
        ensures
            r@ == with_flags(self@, self@.flags | 0x80),
    {
        Self { header: self.header.with_recursion_available(), ..self }
    }

    /// The same message with its response code replaced.
    pub fn with_response_code(self, code: ResponseCode) -> (r: Self)
        ensures
            r@ == with_flags(self@, (self@.flags & 0xfff0) | code_value(code)),
    {
        Self { header: self.header.with_response_code(code), ..self }
    }

    /// A copy of the message.
    pub fn duplicate(&self) -> (r: Message)
        ensures
            r@ == self@,
    {
        let mut questions: Vec<Question> = Vec::new();
        let mut i: usize = 0;
        while i < self.questions.len()
            invariant
                0 <= i <= self.questions@.len(),
                question_views(questions@) == question_views(self.questions@.take(i as int)),
            decreases self.questions@.len() - i,
        {
            let q = self.questions[i].duplicate();
            proof {
                let v = self.questions@;
                assert(v.take(i + 1) =~= v.take(i as int).push(v[i as int]));
                assert(question_views(v.take(i + 1)) =~= question_views(v.take(i as int)).push(
                    v[i as int]@,
                ));
                assert(question_views(questions@.push(q)) =~= question_views(questions@).push(q@));
            }
            questions.push(q);
            i = i + 1;
        }
        assert(self.questions@.take(i as int) =~= self.questions@);
        let r = Message {
            header: self.header,
            questions,
            answers: duplicate_records(&self.answers),
            authorities: duplicate_records(&self.authorities),
            additionals: duplicate_records(&self.additionals),
        };
        r
    }

    /// The addresses that the additional records give for `ns`.
    fn glue_for(&self, ns: &Name) -> (r: Vec<ServerAddr>)
        ensures
            addr_views(r@) == glue_addrs(self@.additionals, ns@),
    {
        let ghost adds = self@.additionals;
        let mut out: Vec<ServerAddr> = Vec::new();
        let mut i: usize = 0;
        while i < self.additionals.len()
            invariant
                0 <= i <= self.additionals@.len(),
                adds == record_views(self.additionals@),
                addr_views(out@) == glue_addrs(adds.take(i as int), ns@),
            decreases self.additionals@.len() - i,
        {
            let additional: &Record = &self.additionals[i];
            let ghost before = out@;
            if additional.name().same_as(ns) {
                match additional.data() {
                    Data::A(ip) => {
                        out.push(ServerAddr { ip: IpAddress::V4(*ip), port: 53 });
                    },
                    Data::Aaaa(ip) => {
                        out.push(ServerAddr { ip: IpAddress::V6(*ip), port: 53 });
                    },
                    _ => {},
                }
            }
            proof {
                assert(adds.take(i + 1).drop_last() =~= adds.take(i as int));
                assert(adds.take(i + 1).last() == adds[i as int]);
                assert(addr_views(out@) =~= addr_views(before) + glue_of(adds[i as int], ns@));
            }
            i = i + 1;
        }
        assert(adds.take(i as int) =~= adds);
        out
    }

    /// One referral for each name server record of the authority section, in
    /// order, with the addresses that the additional section gives for it
    /// (possibly none).
    pub fn referrals(&self) -> (r: Vec<ReferralServer<'_>>)
        ensures
            referral_views(r@) == referrals_of(self@.authorities, self@.additionals),
    {
        let ghost auths = self@.authorities;
        let mut out: Vec<ReferralServer<'_>> = Vec::new();
        let mut i: usize = 0;
        while i < self.authorities.len()
            invariant
                0 <= i <= self.authorities@.len(),
                auths == record_views(self.authorities@),
                referral_views(out@) == referrals_of(auths.take(i as int), self@.additionals),
            decreases self.authorities@.len() - i,
        {
            let ghost before = out@;
            let authority: &Record = &self.authorities[i];
            match authority.as_ns() {
                Some(name) => {
                    let addrs = self.glue_for(name);
                    out.push(ReferralServer { name, addrs });
                },
                None => {},
            }
            proof {
                assert(auths.take(i + 1).drop_last() =~= auths.take(i as int));
                assert(auths.take(i + 1).last() == auths[i as int]);
                assert(referral_views(out@) =~= referrals_of(auths.take(i + 1), self@.additionals));
            }
            i = i + 1;
        }
        assert(auths.take(i as int) =~= auths);
        out
    }

    /// The name servers of the authority section for which the additional
    /// section gives addresses, with those addresses on port 53.
    pub fn referral_servers(&self) -> (r: Vec<ReferralServer<'_>>)
        ensures
            referral_views(r@) == with_glue(referrals_of(self@.authorities, self@.additionals)),
    {
        let all = self.referrals();
        let ghost rs = referral_views(all@);
        let mut out: Vec<ReferralServer<'_>> = Vec::new();
        let mut rest: Vec<ReferralServer<'_>> = all;
        let ghost n = rs.len();
        while rest.len() > 0
            invariant
                rest@.len() <= n,
                referral_views(rest@) == rs.skip(n - rest@.len()),
                referral_views(out@) == with_glue(rs.take(n - rest@.len())),
                n == rs.len(),
            decreases rest@.len(),
        {
            let ghost k = n - rest@.len();
            let ghost before = out@;
            let r: ReferralServer<'_> = rest.remove(0);
            assert(rs[k] == r@) by {
                assert(rs.skip(k)[0] == rs[k]);
            }
            assert(referral_views(rest@) =~= rs.skip(k + 1)) by {
                assert forall|j: int| 0 <= j < rest@.len() implies #[trigger] referral_views(rest@)[j]
                    == rs.skip(k + 1)[j] by {
                    assert(rs.skip(k)[j + 1] == rs.skip(k + 1)[j]);
                }
            }
            if r.has_glue() {
                out.push(r);
            }
            proof {
                assert(rs.take(k + 1).drop_last() =~= rs.take(k));
                assert(rs.take(k + 1).last() == rs[k]);
                assert(referral_views(out@) =~= with_glue(rs.take(k + 1)));
            }
        }
        assert(rs.take(n as int) =~= rs);
        out
    }

    /// Decodes a packet, telling a fault apart from the other outcomes.
    fn decode_inner(value: Packet) -> (r: Result<Message, DecodeStop>)
        ensures
            match decode_message(value@) {
                Decoded::Message(m) => r matches Ok(x) && x@ == m,
                Decoded::Eof => r matches Err(DecodeStop::Error(DnsError::IO(e))) && e.kind
                    == ErrorKind::UnexpectedEof,
                Decoded::Inconsistent => r matches Err(
                    DecodeStop::Error(DnsError::RecordError(RecordError::InconsistentDataLength)),
                ),
                Decoded::Fault => r matches Err(DecodeStop::Fault),
            },
    {
        let mut reader = PacketReader::new(value);
        let header: WireHeader = match WireHeader::decode(&mut reader) {
            Ok(h) => h,
            Err(e) => {
                return Err(DecodeStop::Error(DnsError::IO(e)));
            },
        };
        let questions = match decode_questions(&mut reader, header.question_count()) {
            Ok(q) => q,
            Err(Stop::Eof) => {
                return Err(DecodeStop::Error(DnsError::IO(IoError::unexpected_eof())));
            },
            Err(Stop::Fault) => {
                return Err(DecodeStop::Fault);
            },
        };
        let answers = match Self::decode_section(&mut reader, header.answer_count()) {
            Ok(a) => a,
            Err(e) => {
                return Err(e);
            },
        };
        let authorities = match Self::decode_section(&mut reader, header.authority_count()) {
            Ok(a) => a,
            Err(e) => {
                return Err(e);
            },
        };
        let additionals = match Self::decode_section(&mut reader, header.additional_count()) {
            Ok(a) => a,
            Err(e) => {
                return Err(e);
            },
        };
        Ok(Message { header: Header::from(header), questions, answers, authorities, additionals })
    }

    /// Decodes one section of `n` records, then checks them.
    fn decode_section(reader: &mut PacketReader, n: u16) -> (r: Result<Vec<Record>, DecodeStop>)
        ensures
            final(reader).packet() == old(reader).packet(),
            match section_at(old(reader).packet(), old(reader).offset(), n) {
                Ok((rs, end)) => r matches Ok(v) && record_views(v@) == rs && final(reader).offset()
                    == end,
                Err(Decoded::Eof) => r matches Err(DecodeStop::Error(DnsError::IO(e))) && e.kind
                    == ErrorKind::UnexpectedEof,
                Err(Decoded::Inconsistent) => r matches Err(
                    DecodeStop::Error(DnsError::RecordError(RecordError::InconsistentDataLength)),
                ),
                Err(_) => r matches Err(DecodeStop::Fault),
            },
    {
        let wire = match decode_records(reader, n) {
            Ok(w) => w,
            Err(Stop::Eof) => {
                return Err(DecodeStop::Error(DnsError::IO(IoError::unexpected_eof())));
            },
            Err(Stop::Fault) => {
                return Err(DecodeStop::Fault);
            },
        };
        match convert_records(wire) {
            Ok(v) => Ok(v),
            Err(e) => Err(DecodeStop::Error(DnsError::RecordError(e))),
        }
    }

    /// Whether decoding the packet returns at all (rather than panicking on
    /// a label that is not UTF-8 or following compression pointers forever).
    pub fn decodes_without_fault(value: Packet) -> (r: bool)
        ensures
            r == !(decode_message(value@) is Fault),
    {
        match Self::decode_inner(value) {
            Err(DecodeStop::Fault) => false,
            _ => true,
        }
    }

    /// Decodes a packet: the header, then as many questions, answers,
    /// authority and additional records as it announces.
    pub fn try_from(value: Packet) -> (r: Result<Message, DnsError>)
        requires
            !(decode_message(value@) is Fault),
        ensures
            match decode_message(value@) {
                Decoded::Message(m) => r matches Ok(x) && x@ == m,
                Decoded::Eof => r matches Err(DnsError::IO(e)) && e.kind == ErrorKind::UnexpectedEof,
                Decoded::Inconsistent => r matches Err(
                    DnsError::RecordError(RecordError::InconsistentDataLength),
                ),
                Decoded::Fault => false,
            },
    {
        match Self::decode_inner(value) {
            Ok(m) => Ok(m),
            Err(DecodeStop::Error(e)) => Err(e),
            Err(DecodeStop::Fault) => {
                assert(false);
                Err(DnsError::IO(IoError::unexpected_eof()))
            },
        }
    }

    /// Whether every record's data fits the 16-bit data length field.
    pub fn encodable(&self) -> (r: bool)
        ensures
            r == message_encodable(self@),
    {
        records_fit(&self.answers) && records_fit(&self.authorities) && records_fit(
            &self.additionals,
        )
    }

    /// Encodes the message; a section with more than 65535 entries is
    /// refused.
    pub fn try_into(self) -> (r: Result<OwnedPacket, DnsError>)
        requires
            counts_fit(self@) ==> message_encodable(self@),
        ensures
            counts_fit(self@) ==> (r matches Ok(b) && b@ == encode_message(self@)),
            !counts_fit(self@) ==> r matches Err(DnsError::TryFromIntError(_)),
    {
        let mut writer = PacketWriter::new();
        let _ = writer.write_u16(self.header.id());
        let _ = self.header.flags().encode(&mut writer);
        let qd: u16 = match u16::try_from(self.questions.len()) {
            Ok(v) => v,
            Err(e) => {
                return Err(DnsError::TryFromIntError(e));
            },
        };
        let _ = writer.write_u16(qd);
        let an: u16 = match u16::try_from(self.answers.len()) {
            Ok(v) => v,
            Err(e) => {
                return Err(DnsError::TryFromIntError(e));
            },
        };
        let _ = writer.write_u16(an);
        let ns: u16 = match u16::try_from(self.authorities.len()) {
            Ok(v) => v,
            Err(e) => {
                return Err(DnsError::TryFromIntError(e));
            },
        };
        let _ = writer.write_u16(ns);
        let ar: u16 = match u16::try_from(self.additionals.len()) {
            Ok(v) => v,
            Err(e) => {
                return Err(DnsError::TryFromIntError(e));
            },
        };
        let _ = writer.write_u16(ar);
        let ghost head = writer@;
        let mut i: usize = 0;
        while i < self.questions.len()
            invariant
                0 <= i <= self.questions@.len(),
                writer@ == head + encode_questions(question_views(self.questions@).take(i as int)),
            decreases self.questions@.len() - i,
        {
            let _ = self.questions[i].encode(&mut writer);
            proof {
                let qs = question_views(self.questions@);
                assert(qs.take(i + 1).drop_last() =~= qs.take(i as int));
                assert(qs.take(i + 1).last() == qs[i as int]);
            }
            i = i + 1;
        }
        assert(question_views(self.questions@).take(i as int) =~= question_views(self.questions@));
        encode_all_records(&self.answers, &mut writer);
        encode_all_records(&self.authorities, &mut writer);
        encode_all_records(&self.additionals, &mut writer);
        assert(writer@ =~= encode_message(self@));
        Ok(writer.into_inner())
    }
}

/// Copies of the records.
fn duplicate_records(v: &Vec<Record>) -> (r: Vec<Record>)
    ensures
        record_views(r@) == record_views(v@),
{
    let mut out: Vec<Record> = Vec::new();
    let mut i: usize = 0;
    while i < v.len()
        invariant
            0 <= i <= v@.len(),
            record_views(out@) == record_views(v@.take(i as int)),
        decreases v@.len() - i,
    {
        let x = v[i].duplicate();
        proof {
            assert(v@.take(i + 1) =~= v@.take(i as int).push(v@[i as int]));
            assert(record_views(v@.take(i + 1)) =~= record_views(v@.take(i as int)).push(
                v@[i as int]@,
            ));
            assert(record_views(out@.push(x)) =~= record_views(out@).push(x@));
        }
        out.push(x);
        i = i + 1;
    }
    assert(v@.take(i as int) =~= v@);
    out
}

/// Whether every record's data fits the 16-bit data length field.
fn records_fit(v: &Vec<Record>) -> (r: bool)
    ensures
        r == records_encodable(record_views(v@)),
{
    let mut i: usize = 0;
    while i < v.len()
        invariant
            0 <= i <= v@.len(),
            forall|k: int| 0 <= k < i ==> data_len(#[trigger] record_views(v@)[k].data) <= 65535,
        decreases v@.len() - i,
    {
        assert(record_views(v@)[i as int] == v@[i as int]@);
        if !v[i].encodable() {
            return false;
        }
        i = i + 1;
    }
    true
}

/// Writes the records one after another.
fn encode_all_records(v: &Vec<Record>, writer: &mut PacketWriter)
    requires
        records_encodable(record_views(v@)),
    ensures
        final(writer)@ == old(writer)@ + encode_records(record_views(v@)),
{
    let ghost rs = record_views(v@);
    let mut i: usize = 0;
    while i < v.len()
        invariant
            0 <= i <= v@.len(),
            rs == record_views(v@),
            records_encodable(rs),
            writer@ == old(writer)@ + encode_records(rs.take(i as int)),
        decreases v@.len() - i,
    {
        assert(data_len(rs[i as int].data) <= 65535);
        let _ = v[i].encode(writer);
        proof {
            assert(rs.take(i + 1).drop_last() =~= rs.take(i as int));
            assert(rs.take(i + 1).last() == rs[i as int]);
        }
        i = i + 1;
    }
    assert(rs.take(i as int) =~= rs);
}

} // verus!

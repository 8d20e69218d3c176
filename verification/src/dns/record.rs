//! Resource records: owner name, class, time to live and typed data.
use vstd::prelude::*;
use vstd::std_specs::convert::FromSpecImpl;

use super::name::{Name, encode_name, labels_fit, lemma_name_round_trip, name_at};
use crate::reader::{lemma_be16, lemma_be32, lemma_window};
use crate::text::all_utf8;
use crate::io::{ErrorKind, IoError};
use crate::reader::{PacketReader, Parsed, Stop, parse_bytes, u16_at, u32_at};
use crate::writer::{PacketWriter, WriteResult, be16, be32};

verus! {

/// The data of a record, by type.
#[derive(Debug, PartialEq, Eq, Clone)]
pub enum Data {
    /// A host IPv4 address.
    A([u8; 4]),
    /// A host IPv6 address.
    Aaaa([u8; 16]),
    /// An authoritative name server.
    Ns(Name),
    /// Data of any other type, kept as raw bytes.
    Unknown { _type: u16, value: Vec<u8> },
}

/// The content of record data.
pub enum DataView {
    A(Seq<u8>),
    Aaaa(Seq<u8>),
    Ns(Seq<Seq<u8>>),
    Unknown(u16, Seq<u8>),
}

impl View for Data {
    type V = DataView;

    open spec fn view(&self) -> DataView {
        match self {
            Data::A(b) => DataView::A(b@),
            Data::Aaaa(b) => DataView::Aaaa(b@),
            Data::Ns(n) => DataView::Ns(n@),
            Data::Unknown { _type, value } => DataView::Unknown(*_type, value@),
        }
    }
}

/// The bytes that encode record data (a name uncompressed).
pub open spec fn data_bytes(d: DataView) -> Seq<u8> {
    match d {
        DataView::A(b) => b,
        DataView::Aaaa(b) => b,
        DataView::Ns(n) => encode_name(n),
        DataView::Unknown(_, v) => v,
    }
}

/// The length of the encoded data.
pub open spec fn data_len(d: DataView) -> int {
    data_bytes(d).len() as int
}

/// The record type that data is written under.
pub open spec fn type_of(d: DataView) -> u16 {
    match d {
        DataView::A(_) => 1,
        DataView::Ns(_) => 2,
        DataView::Aaaa(_) => 28,
        DataView::Unknown(t, _) => t,
    }
}

/// A record as it stands on the wire.
pub struct WireRecordView {
    pub name: Seq<Seq<u8>>,
    pub record_type: u16,
    pub class: u16,
    pub ttl: u32,
    pub data_length: u16,
    pub data: DataView,
}

/// A record: owner name, class, time to live and data.
pub struct RecordView {
    pub name: Seq<Seq<u8>>,
    pub class: u16,
    pub ttl: u32,
    pub data: DataView,
}

/// The data of type `t` at `pos`, whose announced length is `len`: four
/// bytes for type 1, a name for type 2, sixteen bytes for type 28, else `len`
/// raw bytes.
pub open spec fn parse_data(d: Seq<u8>, pos: int, t: u16, len: u16) -> Parsed<DataView> {
    if t == 1 {
        match parse_bytes(d, pos, 4) {
            Parsed::Done(b, end) => Parsed::Done(DataView::A(b), end),
            _ => Parsed::Eof,
        }
    } else if t == 2 {
        match name_at(d, pos) {
            Parsed::Done(n, end) => Parsed::Done(DataView::Ns(n), end),
            Parsed::Eof => Parsed::Eof,
            Parsed::Fault => Parsed::Fault,
        }
    } else if t == 28 {
        match parse_bytes(d, pos, 16) {
            Parsed::Done(b, end) => Parsed::Done(DataView::Aaaa(b), end),
            _ => Parsed::Eof,
        }
    } else {
        match parse_bytes(d, pos, len as int) {
            Parsed::Done(b, end) => Parsed::Done(DataView::Unknown(t, b), end),
            _ => Parsed::Eof,
        }
    }
}

/// The record at `pos`: name, type, class, time to live, data length, data.
pub open spec fn parse_record(d: Seq<u8>, pos: int) -> Parsed<WireRecordView> {
    match name_at(d, pos) {
        Parsed::Done(name, p) => if p + 10 > d.len() {
            Parsed::Eof
        } else {
            let t = u16_at(d, p);
            let len = u16_at(d, p + 8);
            match parse_data(d, p + 10, t, len) {
                Parsed::Done(data, end) => Parsed::Done(
                    WireRecordView {
                        name,
                        record_type: t,
                        class: u16_at(d, p + 2),
                        ttl: u32_at(d, p + 4),
                        data_length: len,
                        data,
                    },
                    end,
                ),
                Parsed::Eof => Parsed::Eof,
                Parsed::Fault => Parsed::Fault,
            }
        },
        Parsed::Eof => Parsed::Eof,
        Parsed::Fault => Parsed::Fault,
    }
}

/// A record is laid out as RFC 1035 has it: after the owner name come the
/// type and the class, two big-endian bytes each, the time to live in four,
/// the data length in two, and then the data, four address bytes for type
/// 1 and sixteen for type 28.
pub proof fn lemma_record_layout(d: Seq<u8>, pos: int)
    ensures
        parse_record(d, pos) matches Parsed::Done(w, end) ==> (name_at(d, pos) matches Parsed::Done(
            ls,
            q,
        ) && {
            &&& w.name == ls
            &&& 0 <= q && q + 10 <= end <= d.len()
            &&& w.record_type as int == d[q] as int * 256 + d[q + 1] as int
            &&& w.class as int == d[q + 2] as int * 256 + d[q + 3] as int
            &&& w.ttl as int == d[q + 4] as int * 0x100_0000 + d[q + 5] as int * 0x1_0000 + d[q
                + 6] as int * 256 + d[q + 7] as int
            &&& w.data_length as int == d[q + 8] as int * 256 + d[q + 9] as int
            &&& w.record_type == 1 ==> w.data == DataView::A(d.subrange(q + 10, q + 14)) && end
                == q + 14
            &&& w.record_type == 28 ==> w.data == DataView::Aaaa(d.subrange(q + 10, q + 26))
                && end == q + 26
        }),
{
    super::name::lemma_name_end(d, pos, super::name::MAX_POINTER_JUMPS as nat);
    if let Parsed::Done(_, q) = name_at(d, pos) {
        super::name::lemma_name_end(d, q + 10, super::name::MAX_POINTER_JUMPS as nat);
    }
}

/// The announced data length matches the data.
pub open spec fn consistent(w: WireRecordView) -> bool {
    w.data_length as int == data_len(w.data)
}

/// The record a wire record stands for.
pub open spec fn record_of(w: WireRecordView) -> RecordView {
    RecordView { name: w.name, class: w.class, ttl: w.ttl, data: w.data }
}

/// The wire record of a record; the data length keeps the low 16 bits.
pub open spec fn wire_of(r: RecordView) -> WireRecordView {
    WireRecordView {
        name: r.name,
        record_type: type_of(r.data),
        class: r.class,
        ttl: r.ttl,
        data_length: (data_len(r.data) % 65536) as u16,
        data: r.data,
    }
}

/// The wire form of a record, its data written uncompressed.
pub open spec fn encode_record(r: RecordView) -> Seq<u8> {
    encode_name(r.name) + be16(type_of(r.data)) + be16(r.class) + be32(r.ttl) + be16(
        data_len(r.data) as u16,
    ) + data_bytes(r.data)
}

/// The records that can be written and read back: names of labels with 1
/// to 63 well-formed UTF-8 bytes, address data of the right size, data that
/// fits the 16-bit length field, and raw data under a type that is read
/// back as raw data.
pub open spec fn record_fits(r: RecordView) -> bool {
    &&& labels_fit(r.name)
    &&& all_utf8(r.name)
    &&& data_len(r.data) <= 65535
    &&& match r.data {
        DataView::A(b) => b.len() == 4,
        DataView::Aaaa(b) => b.len() == 16,
        DataView::Ns(n) => labels_fit(n) && all_utf8(n),
        DataView::Unknown(t, _) => t != 1 && t != 2 && t != 28,
    }
}

/// Decoding reads back a record where its wire form stands: the wire record
/// found has the record's type and data length, and stands for the record.
pub proof fn lemma_record_round_trip(d: Seq<u8>, p: int, r: RecordView)
    requires
        record_fits(r),
        0 <= p,
        p + encode_record(r).len() <= d.len(),
        d.subrange(p, p + encode_record(r).len()) == encode_record(r),
    ensures
        parse_record(d, p) == Parsed::Done(wire_of(r), p + encode_record(r).len()),
        consistent(wire_of(r)),
        record_of(wire_of(r)) == r,
{
    let en = encode_name(r.name);
    let bt = be16(type_of(r.data));
    let bc = be16(r.class);
    let bl = be32(r.ttl);
    let bn = be16(data_len(r.data) as u16);
    let db = data_bytes(r.data);
    lemma_window(d, p, en + bt + bc + bl + bn, db);
    lemma_window(d, p, en + bt + bc + bl, bn);
    lemma_window(d, p, en + bt + bc, bl);
    lemma_window(d, p, en + bt, bc);
    lemma_window(d, p, en, bt);
    lemma_name_round_trip(d, p, r.name, super::name::MAX_POINTER_JUMPS as nat);
    let q = p + en.len();
    lemma_be16(d, q, type_of(r.data));
    lemma_be16(d, q + 2, r.class);
    lemma_be32(d, q + 4, r.ttl);
    lemma_be16(d, q + 8, data_len(r.data) as u16);
    let s = q + 10;
    assert(d.subrange(s, s + db.len()) == db);
    match r.data {
        DataView::Ns(n) => {
            lemma_name_round_trip(d, s, n, super::name::MAX_POINTER_JUMPS as nat);
        },
        _ => {},
    }
    assert(parse_data(d, s, type_of(r.data), data_len(r.data) as u16) == Parsed::Done(
        r.data,
        s + db.len(),
    ));
}

impl Data {
    /// The length of the encoded data.
    pub fn len(&self) -> (r: usize)
        requires
            data_len(self@) <= usize::MAX,
        ensures
            r == data_len(self@),
    {
        match self {
            Data::A(bytes) => bytes.len(),
            Data::Aaaa(bytes) => bytes.len(),
            Data::Ns(name) => name.wire_length(),
            Data::Unknown { _type: _, value: bytes } => bytes.len(),
        }
    }

    /// Whether the encoded data is `n` bytes long.
    fn len_is(&self, n: u16) -> (r: bool)
        ensures
            r == (data_len(self@) == n),
    {
        match self {
            Data::A(bytes) => bytes.len() == n as usize,
            Data::Aaaa(bytes) => bytes.len() == n as usize,
            Data::Ns(name) => name.wire_length_is(n),
            Data::Unknown { _type: _, value: bytes } => bytes.len() == n as usize,
        }
    }

    /// The length of the encoded data, modulo 65536.
    fn len_low16(&self) -> (r: u16)
        ensures
            r == data_len(self@) % 65536,
    {
        match self {
            Data::A(bytes) => 4,
            Data::Aaaa(bytes) => 16,
            Data::Ns(name) => name.wire_length_low16(),
            Data::Unknown { _type: _, value: bytes } => (bytes.len() % 65536) as u16,
        }
    }

    /// The name server, for name server data.
    pub fn as_ns_name(&self) -> (r: Option<&Name>)
        ensures
            match self@ {
                DataView::Ns(n) => r matches Some(x) && x@ == n,
                _ => r is None,
            },
    {
        match self {
            Data::Ns(name) => Some(name),
            _ => None,
        }
    }

    /// The record type that the data is written under.
    pub fn record_type(&self) -> (r: u16)
        ensures
            r == type_of(self@),
    {
        match self {
            Data::A(_) => 1,
            Data::Ns(_) => 2,
            Data::Aaaa(_) => 28,
            Data::Unknown { _type, .. } => *_type,
        }
    }

    /// A copy of the data.
    pub fn duplicate(&self) -> (r: Data)
        ensures
            r@ == self@,
    {
        match self {
            Data::A(b) => Data::A(*b),
            Data::Aaaa(b) => Data::Aaaa(*b),
            Data::Ns(n) => Data::Ns(n.duplicate()),
            Data::Unknown { _type, value } => Data::Unknown { _type: *_type, value: value.clone() },
        }
    }

    /// Writes the data bytes (a name uncompressed).
    pub fn encode(&self, writer: &mut PacketWriter) -> (r: WriteResult)
        ensures
            final(writer)@ == old(writer)@ + data_bytes(self@),
            r == Ok::<usize, IoError>(data_len(self@) as usize),
    {
        match self {
            Data::A(buf) => writer.write(buf),
            Data::Aaaa(buf) => writer.write(buf),
            Data::Ns(name) => name.encode(writer),
            Data::Unknown { _type: _, value: buf } => writer.write(buf.as_slice()),
        }
    }
}

/// A record as read from the wire, with its type and announced data length.
#[derive(Debug, PartialEq, Eq, Clone)]
pub struct WireRecord {
    name: Name,
    record_type: u16,
    class: u16,
    ttl: u32,
    data_length: u16,
    data: Data,
}

/// Why a wire record is refused.
#[derive(Debug, PartialEq, Eq, Clone, Copy, Structural)]
pub enum RecordError {
    /// The announced data length differs from the length of the data read.
    InconsistentDataLength,
}

impl RecordError {
    /// The message that describes the error.
    pub fn to_string(&self) -> (r: String)
        ensures
            r@ == "InconsistentDataLength: data length is inconsistent with described"@,
    {
        String::from_str("InconsistentDataLength: data length is inconsistent with described")
    }
}

/// A record: owner name, class, time to live and data; its type follows
/// from the data.
#[derive(Debug, PartialEq, Eq, Clone)]
pub struct Record {
    name: Name,
    class: u16,
    ttl: u32,
    data: Data,
}

impl View for WireRecord {
    type V = WireRecordView;

    closed spec fn view(&self) -> WireRecordView {
        WireRecordView {
            name: self.name@,
            record_type: self.record_type,
            class: self.class,
            ttl: self.ttl,
            data_length: self.data_length,
            data: self.data@,
        }
    }
}

impl View for Record {
    type V = RecordView;

    closed spec fn view(&self) -> RecordView {
        RecordView { name: self.name@, class: self.class, ttl: self.ttl, data: self.data@ }
    }
}

impl Record {
    /// The owner name of a record, and the name its data holds, are of
    /// well-formed UTF-8 labels.
    pub proof fn lemma_names_utf8(&self)
        ensures
            all_utf8(self@.name),
            self@.data matches DataView::Ns(n) ==> all_utf8(n),
    {
        self.name.lemma_labels_utf8();
        if let Data::Ns(n) = &self.data {
            n.lemma_labels_utf8();
        }
    }

    /// A record with the given fields.
    pub fn new(name: Name, class: u16, ttl: u32, data: Data) -> (r: Self)
        ensures
            r@ == (RecordView { name: name@, class, ttl, data: data@ }),
    {
        Self { name, class, ttl, data }
    }

    /// The owner name.
    pub fn name(&self) -> (r: &Name)
        ensures
            r@ == self@.name,
    {
        &self.name
    }

    /// The class.
    pub fn class(&self) -> (r: u16)
        ensures
            r == self@.class,
    {
        self.class
    }

    /// The time to live.
    pub fn ttl(&self) -> (r: u32)
        ensures
            r == self@.ttl,
    {
        self.ttl
    }

    /// The data.
    pub fn data(&self) -> (r: &Data)
        ensures
            r@ == self@.data,
    {
        &self.data
    }

    /// The name server, for a name server record.
    pub fn as_ns(&self) -> (r: Option<&Name>)
        ensures
            match self@.data {
                DataView::Ns(n) => r matches Some(x) && x@ == n,
                _ => r is None,
            },
    {
        self.data.as_ns_name()
    }

    /// A copy of the record.
    pub fn duplicate(&self) -> (r: Record)
        ensures
            r@ == self@,
    {
        Record {
            name: self.name.duplicate(),
            class: self.class,
            ttl: self.ttl,
            data: self.data.duplicate(),
        }
    }

    /// The record of a wire record, when its announced data length matches
    /// its data.
    pub fn try_from(value: WireRecord) -> (r: Result<Record, RecordError>)
        ensures
            consistent(value@) ==> (r matches Ok(x) && x@ == record_of(value@)),
            !consistent(value@) ==> r == Err::<Record, RecordError>(
                RecordError::InconsistentDataLength,
            ),
    {
        if value.data.len_is(value.data_length) {
            Ok(Record { name: value.name, class: value.class, ttl: value.ttl, data: value.data })
        } else {
            Err(RecordError::InconsistentDataLength)
        }
    }

    /// Whether the data fits the 16-bit data length field.
    pub fn encodable(&self) -> (r: bool)
        ensures
            r == (data_len(self@.data) <= 65535),
    {
        let low: u16 = self.data.len_low16();
        if low == 0 {
            self.data.len_is(0)
        } else {
            self.data.len_is(low)
        }
    }

    /// Writes the record with its data uncompressed; the count is the bytes
    /// written.
    pub fn encode(&self, writer: &mut PacketWriter) -> (r: WriteResult)
        requires
            data_len(self@.data) <= 65535,
        ensures
            final(writer)@ == old(writer)@ + encode_record(self@),
            r == Ok::<usize, IoError>(encode_record(self@).len() as usize),
    {
        let mut data_writer = PacketWriter::new();
        let _ = self.data.encode(&mut data_writer);
        let data: Vec<u8> = data_writer.into_inner();
        let start: usize = writer.len();
        let _ = self.name.encode(writer);
        let _ = writer.write_u16(self.data.record_type());
        let _ = writer.write_u16(self.class);
        let _ = writer.write_u32(self.ttl);
        let _ = writer.write_u16(data.len() as u16);
        let _ = writer.write(data.as_slice());
        assert(writer@ =~= old(writer)@ + encode_record(self@));
        let end: usize = writer.len();
        Ok(end - start)
    }
}

impl From<WireRecord> for Record {
    fn from(value: WireRecord) -> (r: Self)
        ensures
            r@ == record_of(value@),
    {
        let WireRecord { name, record_type: _, class, ttl, data_length: _, data } = value;
        Self { name, class, ttl, data }
    }
}

impl FromSpecImpl<WireRecord> for Record {
    open spec fn obeys_from_spec() -> bool {
        true
    }

    closed spec fn from_spec(v: WireRecord) -> Record {
        Record { name: v.name, class: v.class, ttl: v.ttl, data: v.data }
    }
}

impl WireRecord {
    /// A wire record with the given fields.
    pub fn new(
        name: Name,
        record_type: u16,
        class: u16,
        ttl: u32,
        data_length: u16,
        data: Data,
    ) -> (r: WireRecord)
        ensures
            r@ == (WireRecordView { name: name@, record_type, class, ttl, data_length, data: data@ }),
    {
        WireRecord { name, record_type, class, ttl, data_length, data }
    }

    /// Reads a record, telling a fault apart from the end of the packet.
    pub(crate) fn decode_inner(reader: &mut PacketReader) -> (r: Result<WireRecord, Stop>)
        ensures
            final(reader).packet() == old(reader).packet(),
            match parse_record(old(reader).packet(), old(reader).offset()) {
                Parsed::Done(w, end) => r matches Ok(x) && x@ == w && final(reader).offset() == end,
                Parsed::Eof => r == Err::<WireRecord, Stop>(Stop::Eof) && final(reader).offset()
                    == old(reader).packet().len(),
                Parsed::Fault => r == Err::<WireRecord, Stop>(Stop::Fault),
            },
    {
        proof {
            super::name::lemma_name_end(reader.packet(), reader.offset(), super::name::MAX_POINTER_JUMPS as nat);
        }
        let name = Name::decode_with_fuel(reader, super::name::MAX_POINTER_JUMPS)?;
        let record_type: u16 = match reader.read_u16() {
            Ok(v) => v,
            Err(_) => {
                return Err(Stop::Eof);
            },
        };
        let class: u16 = match reader.read_u16() {
            Ok(v) => v,
            Err(_) => {
                return Err(Stop::Eof);
            },
        };
        let ttl: u32 = match reader.read_u32() {
            Ok(v) => v,
            Err(_) => {
                return Err(Stop::Eof);
            },
        };
        let data_length: u16 = match reader.read_u16() {
            Ok(v) => v,
            Err(_) => {
                return Err(Stop::Eof);
            },
        };
        let data: Data = if record_type == 1 {
            match reader.read_array4() {
                Ok(b) => Data::A(b),
                Err(_) => {
                    return Err(Stop::Eof);
                },
            }
        } else if record_type == 2 {
            Data::Ns(Name::decode_with_fuel(reader, super::name::MAX_POINTER_JUMPS)?)
        } else if record_type == 28 {
            match reader.read_array16() {
                Ok(b) => Data::Aaaa(b),
                Err(_) => {
                    return Err(Stop::Eof);
                },
            }
        } else {
            match reader.read_vec(data_length as usize) {
                Ok(value) => Data::Unknown { _type: record_type, value },
                Err(_) => {
                    return Err(Stop::Eof);
                },
            }
        };
        Ok(WireRecord { name, record_type, class, ttl, data_length, data })
    }

    /// Whether `decode` may be called at the reader's position: the record
    /// there has no name with a label that is not UTF-8 or an endless
    /// pointer chain.
    pub fn decodes_without_fault(reader: &PacketReader) -> (r: bool)
        ensures
            r == !(parse_record(reader.packet(), reader.offset()) is Fault),
    {
        let mut probe = reader.copy();
        match Self::decode_inner(&mut probe) {
            Err(Stop::Fault) => false,
            _ => true,
        }
    }

    /// Reads a record: name, type, class, time to live, data length, then
    /// data by type.
    pub fn decode(reader: &mut PacketReader) -> (r: Result<WireRecord, IoError>)
        requires
            !(parse_record(old(reader).packet(), old(reader).offset()) is Fault),
        ensures
            final(reader).packet() == old(reader).packet(),
            match parse_record(old(reader).packet(), old(reader).offset()) {
                Parsed::Done(w, end) => r matches Ok(x) && x@ == w && final(reader).offset() == end,
                _ => r matches Err(e) && e.kind == ErrorKind::UnexpectedEof && final(reader).offset()
                    == old(reader).packet().len(),
            },
    {
        match Self::decode_inner(reader) {
            Ok(w) => Ok(w),
            Err(_) => Err(IoError::unexpected_eof()),
        }
    }
}

impl From<Record> for WireRecord {
    fn from(value: Record) -> (r: Self)
        ensures
            r@ == wire_of(value@),
    {
        let record_type: u16 = value.data.record_type();
        let data_length: u16 = value.data.len_low16();
        let Record { name, data, ttl, class } = value;
        Self { name, record_type, class, ttl, data_length, data }
    }
}

impl FromSpecImpl<Record> for WireRecord {
    open spec fn obeys_from_spec() -> bool {
        true
    }

    closed spec fn from_spec(v: Record) -> WireRecord {
        WireRecord {
            name: v.name,
            record_type: type_of(v.data@),
            class: v.class,
            ttl: v.ttl,
            data_length: (data_len(v.data@) % 65536) as u16,
            data: v.data,
        }
    }
}

} // verus!

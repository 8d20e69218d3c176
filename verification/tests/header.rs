use lib::dns::flags::Flags;
use lib::dns::header::{Header, WireHeader};
use lib::io::ErrorKind;
use lib::reader::PacketReader;

#[test]
fn decode_truncated_header_returns_eof() {
    let packet = [
        0x12, 0x34, 0x81, 0x80, 0x00, 0x01, 0x00, 0x02, 0x00, 0x03, 0x00,
    ];

    let mut reader = PacketReader::new(&packet);

    let err = WireHeader::decode(&mut reader).unwrap_err();

    assert_eq!(err.kind(), ErrorKind::UnexpectedEof);
}

#[test]
fn decode_header_reads_all_counts() {
    let packet = [
        0x12, 0x34, 0x81, 0x80, 0x00, 0x01, 0x00, 0x02, 0x00, 0x03, 0x00, 0x04,
    ];

    let mut reader = PacketReader::new(&packet);

    let header = WireHeader::decode(&mut reader).unwrap();

    assert_eq!(header.question_count(), 1);
    assert_eq!(header.answer_count(), 2);
    assert_eq!(header.authority_count(), 3);
    assert_eq!(header.additional_count(), 4);
    assert_eq!(
        header,
        WireHeader::decode(&mut PacketReader::new(&packet)).unwrap()
    );
}

#[test]
fn header_keeps_id_and_flags_of_the_wire_header() {
    let packet = [
        0xab, 0xcd, 0x01, 0x00, 0x00, 0x01, 0x00, 0x00, 0x00, 0x00, 0x00, 0x00,
    ];
    let wire = WireHeader::decode(&mut PacketReader::new(&packet)).unwrap();
    let header = Header::from(wire);
    assert_eq!(header, Header::new(0xabcd, Flags::from(0x0100)));
    assert_eq!(header.id(), 0xabcd);
    assert_eq!(header.flags(), Flags::from(0x0100));
}

#[test]
fn header_helpers_change_only_the_flags() {
    let header = Header::new(7, Flags::from(0x0100));
    assert_eq!(header.into_response(), Header::new(7, Flags::from(0x8100)));
    assert_eq!(header.with_recursion_available(), Header::new(7, Flags::from(0x0180)));
    assert_eq!(
        header.with_response_code(lib::dns::flags::ResponseCode::ServerFailure),
        Header::new(7, Flags::from(0x0102))
    );
}

#[test]
fn full_header_reads_all_fields() {
    let packet = [
        0x12, 0x34, 0x81, 0x80, 0x00, 0x01, 0x00, 0x02, 0x00, 0x03, 0x00, 0x04, 0xff,
    ];
    let mut reader = PacketReader::new(&packet);
    let header = lib::header::Header::read(&mut reader).unwrap();
    assert_eq!(header.question_count(), 1);
    assert_eq!(header.answer_count(), 2);
    assert_eq!(reader.position(), 12);
    let short = [0x12, 0x34];
    let err = lib::header::Header::read(&mut PacketReader::new(&short)).unwrap_err();
    assert_eq!(err.kind(), ErrorKind::UnexpectedEof);
}

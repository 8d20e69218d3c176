use lib::dns::answer::{Answer, Data as AnswerData};
use lib::dns::name::Name;
use lib::dns::record::{Data, Record, RecordError, WireRecord};
use lib::io::ErrorKind;
use lib::reader::PacketReader;
use lib::writer::PacketWriter;

#[test]
fn answer_encode_writes_correct_bytes() {
    let answer = Record::new(
        Name::from_labels(&["google", "com"]),
        1,
        300,
        Data::A([142, 250, 0, 1]),
    );

    let mut writer = PacketWriter::new();

    answer.encode(&mut writer).unwrap();

    assert_eq!(
        writer.get(),
        &[
            // google.com
            6, b'g', b'o', b'o', b'g', b'l', b'e', 3, b'c', b'o', b'm', 0, // TYPE A
            0x00, 0x01, // CLASS IN
            0x00, 0x01, // TTL 300
            0x00, 0x00, 0x01, 0x2c, // RDLENGTH
            0x00, 0x04, // IP 142.250.0.1
            142, 250, 0, 1,
        ]
    );
}

#[test]
fn answer_round_trip() {
    let original = Record::new(
        Name::from_labels(&["google", "com"]),
        1,
        300,
        Data::A([142, 250, 0, 1]),
    );

    let mut writer = PacketWriter::new();

    original.encode(&mut writer).unwrap();

    let mut reader = PacketReader::new(writer.get());

    let decoded = WireRecord::decode(&mut reader).unwrap();

    assert_eq!(decoded, WireRecord::from(original));
}

#[test]
fn unknown_record_round_trip_preserves_bytes() {
    let original = Record::new(
        Name::from_labels(&["example", "com"]),
        1,
        60,
        Data::Unknown {
            _type: 99,
            value: vec![1, 2, 3, 4],
        },
    );

    let mut writer = PacketWriter::new();

    original.encode(&mut writer).unwrap();

    let mut reader = PacketReader::new(writer.get());

    let decoded = WireRecord::decode(&mut reader).unwrap();

    assert_eq!(decoded, WireRecord::from(original));
}

#[test]
fn decode_truncated_record_returns_eof() {
    let packet = [
        6, b'g', b'o', b'o', b'g', b'l', b'e', 3, b'c', b'o', b'm', 0, // name
        0x00, 0x01, // type
        0x00, 0x01, // class
        0x00, 0x00, 0x01, 0x2c, // ttl
        0x00, 0x04, // rdlength
        142, 250, 0, // truncated A record
    ];

    let mut reader = PacketReader::new(&packet);

    let err = WireRecord::decode(&mut reader).unwrap_err();

    assert_eq!(err.kind(), ErrorKind::UnexpectedEof);
}

#[test]
fn data_length_of_each_kind() {
    assert_eq!(Data::A([1, 2, 3, 4]).len(), 4);
    assert_eq!(Data::Aaaa([0; 16]).len(), 16);
    assert_eq!(Data::Ns(Name::from_labels(&["ns1", "example", "com"])).len(), 17);
    assert_eq!(Data::Unknown { _type: 7, value: vec![1, 2, 3] }.len(), 3);
    assert_eq!(
        Data::Ns(Name::from_labels(&["ns"])).as_ns_name(),
        Some(&Name::from_labels(&["ns"]))
    );
    assert_eq!(Data::A([1, 2, 3, 4]).as_ns_name(), None);
}

#[test]
fn wire_record_with_wrong_length_is_refused() {
    let wire = WireRecord::new(Name::from_labels(&["a"]), 1, 1, 5, 3, Data::A([1, 2, 3, 4]));
    assert_eq!(Record::try_from(wire).unwrap_err(), RecordError::InconsistentDataLength);
    let wire = WireRecord::new(Name::from_labels(&["a"]), 1, 1, 5, 4, Data::A([1, 2, 3, 4]));
    assert_eq!(
        Record::try_from(wire).unwrap(),
        Record::new(Name::from_labels(&["a"]), 1, 5, Data::A([1, 2, 3, 4]))
    );
}

#[test]
fn wire_record_conversions_keep_fields() {
    let record = Record::new(
        Name::from_labels(&["example", "com"]),
        1,
        300,
        Data::Ns(Name::from_labels(&["ns1", "example", "com"])),
    );
    let wire = WireRecord::from(record.clone());
    assert_eq!(
        wire,
        WireRecord::new(
            Name::from_labels(&["example", "com"]),
            2,
            1,
            300,
            17,
            Data::Ns(Name::from_labels(&["ns1", "example", "com"]))
        )
    );
    assert_eq!(Record::from(wire), record);
    assert_eq!(record.name(), &Name::from_labels(&["example", "com"]));
    assert_eq!(record.class(), 1);
    assert_eq!(record.ttl(), 300);
    assert_eq!(record.as_ns(), Some(&Name::from_labels(&["ns1", "example", "com"])));
    assert!(record.encodable());
}

#[test]
fn ns_record_data_is_a_name() {
    let packet = [
        3, b'c', b'o', b'm', 0, // 0: com
        0xC0, 0x00, 0x00, 0x02, 0x00, 0x01, 0x00, 0x00, 0x00, 0x10, 0x00, 0x05, // owner, NS
        2, b'n', b's', 0xC0, 0x00, // ns.com
    ];
    let mut reader = PacketReader::new(&packet);
    reader.set_position(5);
    let wire = WireRecord::decode(&mut reader).unwrap();
    assert_eq!(
        wire,
        WireRecord::new(
            Name::from_labels(&["com"]),
            2,
            1,
            16,
            5,
            Data::Ns(Name::from_labels(&["ns", "com"]))
        )
    );
    // the compressed name takes 5 bytes on the wire but 8 uncompressed
    assert_eq!(Record::try_from(wire).unwrap_err(), RecordError::InconsistentDataLength);
}

#[test]
fn reader_reads_an_answer() {
    let packet = [
        0, 0x00, 0x1c, 0x00, 0x01, 0x00, 0x00, 0x00, 0x05, 0x00, 0x10, 1, 2, 3, 4, 5, 6, 7, 8, 9,
        10, 11, 12, 13, 14, 15, 16,
    ];
    let mut reader = PacketReader::new(&packet);
    let answer: Answer = reader.read_answer().unwrap();
    let formatted = format!("{:?}", answer);
    assert!(formatted.contains("AAAA"));
    let again = Answer::read(&mut PacketReader::new(&packet)).unwrap();
    assert_eq!(format!("{:?}", again), formatted);
    let _ = AnswerData::Unknown(vec![]);
}

#[test]
fn record_error_message() {
    assert_eq!(
        RecordError::InconsistentDataLength.to_string(),
        "InconsistentDataLength: data length is inconsistent with described"
    );
}

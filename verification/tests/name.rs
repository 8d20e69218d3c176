use lib::dns::name::Name;
use lib::io::ErrorKind;
use lib::reader::PacketReader;
use lib::writer::PacketWriter;

#[test]
fn decodes_uncompressed_name() {
    let packet = [
        6, b'g', b'o', b'o', b'g', b'l', b'e', 3, b'c', b'o', b'm', 0,
    ];

    let mut reader = PacketReader::new(&packet);

    let name = Name::decode(&mut reader).unwrap();

    assert_eq!(name, Name::from_labels(&["google", "com"]));
}

#[test]
fn decodes_compressed_name() {
    let packet = [
        // fake 12 byte header
        0, 0, 0, 0, 0, 0, 0, 0, 0, 0, 0, 0, // position 12
        6, b'g', b'o', b'o', b'g', b'l', b'e', 3, b'c', b'o', b'm', 0, // position 24
        0xC0, 0x0C,
    ];

    let mut reader = PacketReader::new(&packet);

    reader.set_position(24);

    let name = Name::decode(&mut reader).unwrap();

    assert_eq!(name, Name::from_labels(&["google", "com"]));
}

#[test]
fn decodes_a_compressed_name_restores_cursor_position() {
    let packet = [
        // 0-11
        0, 0, 0, 0, 0, 0, 0, 0, 0, 0, 0, 0, // 12
        6, b'g', b'o', b'o', b'g', b'l', b'e', 3, b'c', b'o', b'm', 0, // 24
        0xC0, 0x0C, // something after name
        0x12, 0x34,
    ];

    let mut reader = PacketReader::new(&packet);

    reader.set_position(24);

    let name = Name::decode(&mut reader).unwrap();

    assert_eq!(name, Name::from_labels(&["google", "com"]));

    let next = reader.read_u16().unwrap();

    assert_eq!(next, 0x1234);
}

#[test]
fn decodes_partially_compressed_name() {
    let packet = [
        // fake header
        0, 0, 0, 0, 0, 0, 0, 0, 0, 0, 0, 0, // position 12: google.com
        6, b'g', b'o', b'o', b'g', b'l', b'e', 3, b'c', b'o', b'm', 0, // position 24:
        3, b'w', b'w', b'w', 0xC0, 0x0C,
    ];

    let mut reader = PacketReader::new(&packet);

    reader.set_position(24);

    let name = Name::decode(&mut reader).unwrap();

    assert_eq!(name, Name::from_labels(&["www", "google", "com"]));
}

#[test]
fn encode() {
    let mut writer = PacketWriter::new();
    let name = Name::from_labels(&["google", "com"]);
    let n = name.encode(&mut writer).unwrap();
    assert_eq!(n, 12);
    assert_eq!(
        writer.get(),
        &[
            6, b'g', b'o', b'o', b'g', b'l', b'e', 3, b'c', b'o', b'm', 0,
        ]
    )
}

#[test]
fn encode_round_trip() {
    let mut writer = PacketWriter::new();
    let name = Name::from_labels(&["google", "com"]);
    let _ = name.encode(&mut writer).unwrap();
    let mut reader = PacketReader::new(writer.get());
    let read = Name::decode(&mut reader).unwrap();
    assert_eq!(read, Name::from_labels(&["google", "com"]));
}

#[test]
fn decode_root_label() {
    let packet = [0];

    let mut reader = PacketReader::new(&packet);

    let name = Name::decode(&mut reader).unwrap();

    assert_eq!(name, Name::new());
}

#[test]
fn encode_root_label() {
    let mut writer = PacketWriter::new();
    let name = Name::new();

    let n = name.encode(&mut writer).unwrap();

    assert_eq!(n, 1);
    assert_eq!(writer.get(), &[0]);
}

#[test]
fn decode_truncated_label_returns_eof() {
    let packet = [3, b'w', b'w'];

    let mut reader = PacketReader::new(&packet);

    let err = Name::decode(&mut reader).unwrap_err();

    assert_eq!(err.kind(), ErrorKind::UnexpectedEof);
}

#[test]
fn decode_pointer_past_packet_returns_eof() {
    let packet = [0xC0, 0x04];

    let mut reader = PacketReader::new(&packet);

    let err = Name::decode(&mut reader).unwrap_err();

    assert_eq!(err.kind(), ErrorKind::UnexpectedEof);
}

#[test]
fn wire_length_counts_length_bytes_and_terminator() {
    assert_eq!(Name::from_labels(&["google", "com"]).wire_length(), 12);
    assert_eq!(Name::new().wire_length(), 1);
    assert!(Name::from_labels(&["ns1", "example", "com"]).wire_length_is(17));
    assert!(!Name::from_labels(&["ns1", "example", "com"]).wire_length_is(16));
    assert_eq!(Name::from_labels(&["a"]).wire_length_low16(), 3);
}

#[test]
fn push_appends_a_top_level_label() {
    let mut name = Name::from_labels(&["www"]);
    name.push("example".to_string());
    assert_eq!(name, Name::from_labels(&["www", "example"]));
    assert_eq!(name.to_string(), "www.example");
    assert_eq!(Name::new().to_string(), "");
}

#[test]
fn same_as_compares_labels() {
    let a = Name::from_labels(&["ns1", "example", "com"]);
    assert!(a.same_as(&Name::from_labels(&["ns1", "example", "com"])));
    assert!(!a.same_as(&Name::from_labels(&["ns2", "example", "com"])));
    assert!(!a.same_as(&Name::from_labels(&["example", "com"])));
    assert_eq!(a.duplicate(), a);
}

#[test]
fn decoded_labels_keep_their_text() {
    let packet = [3, b'w', b'w', b'w', 4, 0xc3, 0xa9, b't', b'e', 0];
    let name = Name::decode(&mut PacketReader::new(&packet)).unwrap();
    assert_eq!(name.to_string(), "www.\u{e9}te");
}

#[test]
fn pointer_chain_is_followed_to_its_end() {
    let packet = [
        3, b'c', b'o', b'm', 0, // 0: com
        7, b'e', b'x', b'a', b'm', b'p', b'l', b'e', 0xC0, 0x00, // 5: example.<0>
        3, b'w', b'w', b'w', 0xC0, 0x05, // 15: www.<5>
    ];
    let mut reader = PacketReader::new(&packet);
    reader.set_position(15);
    let name = Name::decode(&mut reader).unwrap();
    assert_eq!(name, Name::from_labels(&["www", "example", "com"]));
    assert_eq!(reader.position(), 21);
}

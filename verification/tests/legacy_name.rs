use lib::name::Name;
use lib::reader::PacketReader;

#[test]
fn reads_uncompressed_name() {
    let packet = [
        6, b'g', b'o', b'o', b'g', b'l', b'e', 3, b'c', b'o', b'm', 0,
    ];

    let mut reader = PacketReader::new(&packet);

    let name = Name::read(&mut reader).unwrap();

    assert_eq!(name, Name::from("google.com"));
}

#[test]
fn reads_compressed_name() {
    let packet = [
        // fake 12 byte header
        0, 0, 0, 0, 0, 0, 0, 0, 0, 0, 0, 0, // position 12
        6, b'g', b'o', b'o', b'g', b'l', b'e', 3, b'c', b'o', b'm', 0, // position 24
        0xC0, 0x0C,
    ];

    let mut reader = PacketReader::new(&packet);

    reader.set_position(24);

    let name = Name::read(&mut reader).unwrap();

    assert_eq!(name, Name::from("google.com"));
}

#[test]
fn compressed_name_restores_cursor_position() {
    let packet = [
        // 0-11
        0, 0, 0, 0, 0, 0, 0, 0, 0, 0, 0, 0, // 12
        6, b'g', b'o', b'o', b'g', b'l', b'e', 3, b'c', b'o', b'm', 0, // 24
        0xC0, 0x0C, // something after name
        0x12, 0x34,
    ];

    let mut reader = PacketReader::new(&packet);

    reader.set_position(24);

    let name = Name::read(&mut reader).unwrap();

    assert_eq!(name, Name::from("google.com"));

    let next = reader.read_u16().unwrap();

    assert_eq!(next, 0x1234);
}

#[test]
fn reads_partially_compressed_name() {
    let packet = [
        // fake header
        0, 0, 0, 0, 0, 0, 0, 0, 0, 0, 0, 0, // position 12: google.com
        6, b'g', b'o', b'o', b'g', b'l', b'e', 3, b'c', b'o', b'm', 0, // position 24:
        3, b'w', b'w', b'w', 0xC0, 0x0C,
    ];

    let mut reader = PacketReader::new(&packet);

    reader.set_position(24);

    let name = Name::read(&mut reader).unwrap();

    assert_eq!(name, Name::from("www.google.com"));
}

#[test]
fn reads_root_as_empty_text() {
    let packet = [0];
    let name = Name::read(&mut PacketReader::new(&packet)).unwrap();
    assert_eq!(name, Name::from(""));
}

#[test]
fn pointer_to_root_leaves_a_trailing_dot() {
    let packet = [0, 3, b'w', b'w', b'w', 0xC0, 0x00];
    let mut reader = PacketReader::new(&packet);
    reader.set_position(1);
    let name = Name::read(&mut reader).unwrap();
    assert_eq!(name, Name::from("www."));
}

#[test]
fn truncated_dotted_name_returns_eof() {
    let packet = [3, b'w'];
    let err = Name::read(&mut PacketReader::new(&packet)).unwrap_err();
    assert_eq!(err.kind(), lib::io::ErrorKind::UnexpectedEof);
}

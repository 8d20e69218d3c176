use lib::io::ErrorKind;
use lib::reader::PacketReader;

#[test]
fn reads_numbers_in_network_order() {
    let packet = [0x01, 0x02, 0x03, 0x04, 0x05, 0x06, 0x07];
    let mut reader = PacketReader::new(&packet);
    assert_eq!(reader.read_u8().unwrap(), 0x01);
    assert_eq!(reader.read_u16().unwrap(), 0x0203);
    assert_eq!(reader.read_u32().unwrap(), 0x04050607);
    assert_eq!(reader.position(), 7);
}

#[test]
fn read_past_end_returns_eof_and_moves_to_end() {
    let packet = [0x01, 0x02, 0x03];
    let mut reader = PacketReader::new(&packet);
    reader.set_position(2);
    let err = reader.read_u16().unwrap_err();
    assert_eq!(err.kind(), ErrorKind::UnexpectedEof);
    assert_eq!(reader.position(), 3);
}

#[test]
fn read_after_far_position_returns_eof() {
    let packet = [0x01, 0x02];
    let mut reader = PacketReader::new(&packet);
    reader.set_position(100);
    assert_eq!(reader.read_u8().unwrap_err().kind(), ErrorKind::UnexpectedEof);
}

#[test]
fn read_exact_fills_the_buffer() {
    let packet = [9, 8, 7, 6];
    let mut reader = PacketReader::new(&packet);
    reader.set_position(1);
    let mut buf = [0u8; 3];
    reader.read_exact(&mut buf).unwrap();
    assert_eq!(buf, [8, 7, 6]);
    let mut more = [0u8; 1];
    assert_eq!(reader.read_exact(&mut more).unwrap_err().kind(), ErrorKind::UnexpectedEof);
}

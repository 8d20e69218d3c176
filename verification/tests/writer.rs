use lib::writer::PacketWriter;

#[test]
fn write_u8() {
    let mut writer = PacketWriter::new();
    let n = writer.write_u8(12).unwrap();
    assert_eq!(n, 1);
    assert_eq!(*writer.get(), [0x0c]);
}

#[test]
fn write_u16() {
    let mut writer = PacketWriter::new();
    let n = writer.write_u16(0x1234).unwrap();
    assert_eq!(n, 2);
    assert_eq!(*writer.get(), [0x12, 0x34]);
}

#[test]
fn write_u32() {
    let mut writer = PacketWriter::new();
    let n = writer.write_u32(0x12345678).unwrap();
    assert_eq!(n, 4);
    assert_eq!(*writer.get(), [0x12, 0x34, 0x56, 0x78]);
}

#[test]
fn writes_append_in_order() {
    let mut writer = PacketWriter::new();
    assert_eq!(writer.write(&[1, 2, 3]).unwrap(), 3);
    assert_eq!(writer.write_u8(4).unwrap(), 1);
    assert_eq!(writer.write(&[]).unwrap(), 0);
    assert_eq!(writer.into_inner(), vec![1, 2, 3, 4]);
}

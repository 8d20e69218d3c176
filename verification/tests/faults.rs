use lib::dns::answer::Answer;
use lib::dns::name::Name;
use lib::dns::question::Question;
use lib::dns::record::WireRecord;
use lib::name::Name as DottedName;
use lib::reader::PacketReader;

fn looping_packet() -> Vec<u8> {
    // A name at offset 0 that points to itself, then type and class.
    vec![0xC0, 0x00, 0x00, 0x01, 0x00, 0x01]
}

fn bad_label_packet() -> Vec<u8> {
    // One label whose byte is not UTF-8, then type and class.
    vec![1, 0xFF, 0, 0x00, 0x01, 0x00, 0x01]
}

fn good_record_packet() -> Vec<u8> {
    vec![
        3, b'c', b'o', b'm', 0, 0x00, 0x01, 0x00, 0x01, 0x00, 0x00, 0x01, 0x2C, 0x00, 0x04, 1,
        2, 3, 4,
    ]
}

#[test]
fn name_decode_fault_is_detected_before_decoding() {
    let looping = looping_packet();
    let bad = bad_label_packet();
    let good = good_record_packet();
    assert!(!Name::decodes_without_fault(&PacketReader::new(&looping)));
    assert!(!Name::decodes_without_fault(&PacketReader::new(&bad)));
    assert!(Name::decodes_without_fault(&PacketReader::new(&good)));
    // A name cut short is no fault: decoding reports the end of the packet.
    assert!(Name::decodes_without_fault(&PacketReader::new(&[3, b'c'])));
}

#[test]
fn question_and_answer_faults_are_those_of_their_name() {
    let looping = looping_packet();
    let good = good_record_packet();
    assert!(!Question::decodes_without_fault(&PacketReader::new(&looping)));
    assert!(!Answer::reads_without_fault(&PacketReader::new(&looping)));
    assert!(Question::decodes_without_fault(&PacketReader::new(&good)));
    assert!(Answer::reads_without_fault(&PacketReader::new(&good)));
    let mut reader = PacketReader::new(&good);
    assert!(reader.read_answer().is_ok());
}

#[test]
fn record_fault_is_detected_before_decoding() {
    let bad = bad_label_packet();
    let good = good_record_packet();
    assert!(!WireRecord::decodes_without_fault(&PacketReader::new(&bad)));
    assert!(WireRecord::decodes_without_fault(&PacketReader::new(&good)));
    assert!(WireRecord::decode(&mut PacketReader::new(&good)).is_ok());
}

#[test]
fn dotted_name_fault_is_detected_before_reading() {
    let looping = looping_packet();
    let good = good_record_packet();
    assert!(!DottedName::reads_without_fault(&PacketReader::new(&looping)));
    assert!(DottedName::reads_without_fault(&PacketReader::new(&good)));
}

#[test]
fn fault_test_leaves_the_reader_where_it_was() {
    let good = good_record_packet();
    let reader = PacketReader::new(&good);
    assert!(Name::decodes_without_fault(&reader));
    assert_eq!(reader.position(), 0);
}

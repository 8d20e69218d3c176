use lib::dns::name::Name;
use lib::dns::question::Question;
use lib::io::ErrorKind;
use lib::reader::PacketReader;
use lib::writer::PacketWriter;

#[test]
fn question_encode_writes_correct_bytes() {
    let question = Question {
        name: Name::from_labels(&["google", "com"]),
        record_type: 1,
        class: 1,
    };

    let mut writer = PacketWriter::new();

    question.encode(&mut writer).unwrap();

    assert_eq!(
        writer.get(),
        &[
            6, b'g', b'o', b'o', b'g', b'l', b'e', 3, b'c', b'o', b'm', 0, 0x00, 0x01, 0x00,
            0x01,
        ]
    );
}

#[test]
fn question_round_trip() {
    let original = Question {
        name: Name::from_labels(&["google", "com"]),
        record_type: 1,
        class: 1,
    };

    let mut writer = PacketWriter::new();

    original.encode(&mut writer).unwrap();

    let mut reader = PacketReader::new(writer.get());

    let decoded = Question::decode(&mut reader).unwrap();

    assert_eq!(decoded, original);
}

#[test]
fn question_decode_returns_eof_when_truncated_after_name() {
    let packet = [
        6, b'g', b'o', b'o', b'g', b'l', b'e', 3, b'c', b'o', b'm', 0, 0x00,
    ];

    let mut reader = PacketReader::new(&packet);

    let err = Question::decode(&mut reader).unwrap_err();

    assert_eq!(err.kind(), ErrorKind::UnexpectedEof);
}

#[test]
fn reader_reads_a_question() {
    let packet = [3, b'c', b'o', b'm', 0, 0x00, 0x1c, 0x00, 0x01];
    let mut reader = PacketReader::new(&packet);
    let question = reader.read_question().unwrap();
    assert_eq!(
        question,
        Question { name: Name::from_labels(&["com"]), record_type: 28, class: 1 }
    );
    assert_eq!(question.encode(&mut PacketWriter::new()).unwrap(), 9);
}

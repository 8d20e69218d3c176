use lib::address::{IpAddress, ServerAddr};
use lib::dns::flags::{Flags, ResponseCode};
use lib::dns::header::Header;
use lib::dns::name::Name;
use lib::dns::question::Question;
use lib::dns::record::{Data, Record};
use lib::dns::{DnsError, Message, ReferralServer};
use lib::io::ErrorKind;
use lib::{OwnedPacket, Packet};

#[test]
fn dns_encode_empty_packet() {
    let dns = Message::new(
        Header::new(0x1234, Flags::from(0x8180)),
        vec![],
        vec![],
        vec![],
        vec![],
    );

    let bytes: OwnedPacket = dns.try_into().unwrap();

    assert_eq!(
        bytes,
        vec![
            0x12, 0x34, // id
            0x81, 0x80, // flags
            0x00, 0x00, // questions
            0x00, 0x00, // answers
            0x00, 0x00, // authorities
            0x00, 0x00, // additional
        ]
    );
}

#[test]
fn dns_round_trip() {
    let original = Message::new(
        Header::new(0x1234, Flags::from(0x8180)),
        vec![Question {
            name: Name::from_labels(&["google", "com"]),
            record_type: 1,
            class: 1,
        }],
        vec![Record::new(
            Name::from_labels(&["google", "com"]),
            1,
            300,
            Data::A([142, 250, 0, 1]),
        )],
        vec![],
        vec![],
    );

    let bytes: OwnedPacket = original.clone().try_into().unwrap();

    let decoded = Message::try_from(bytes.as_slice()).unwrap();

    assert_eq!(decoded, original);
}

#[test]
fn into_response_sets_only_the_response_bit() {
    let message = Message::new(
        Header::new(0x1234, Flags::from(0b0000_0001_0000_0000)),
        vec![Question {
            name: Name::from_labels(&["google", "com"]),
            record_type: 1,
            class: 1,
        }],
        vec![],
        vec![],
        vec![],
    );

    let response = message.clone().into_response();

    assert_eq!(
        response.flags().query_or_response(),
        Flags::from(0b1000_0001_0000_0000).query_or_response()
    );
    assert_eq!(response.questions(), message.questions());
    assert_eq!(response.answers(), message.answers());
    assert_eq!(response.authorities(), message.authorities());
    assert_eq!(response.additionals(), message.additionals());
}

#[test]
fn with_recursion_available_sets_only_the_ra_bit() {
    let message = Message::new(
        Header::new(0x1234, Flags::from(0b0000_0001_0000_0000)),
        vec![],
        vec![],
        vec![],
        vec![],
    );

    let updated = message.with_recursion_available();

    assert_eq!(updated.flags(), Flags::from(0b0000_0001_1000_0000));
}

#[test]
fn with_response_code_updates_the_low_four_bits() {
    let message = Message::new(
        Header::new(0x1234, Flags::from(0b1000_0001_1000_0000)),
        vec![],
        vec![],
        vec![],
        vec![],
    );

    let updated = message.with_response_code(ResponseCode::Refused);

    assert_eq!(updated.flags(), Flags::from(0b1000_0001_1000_0101));
}

fn preserved_fields_packet() -> Vec<u8> {
    vec![
        // header: id, flags, qd=1, an=1, ns=1, ar=1
        0x12, 0x34, 0x81, 0x80, 0x00, 0x01, 0x00, 0x01, 0x00, 0x01, 0x00, 0x01,
        // question: example.com A IN
        7, b'e', b'x', b'a', b'm', b'p', b'l', b'e', 3, b'c', b'o', b'm', 0, 0x00, 0x01, 0x00,
        0x01, // answer: example.com A IN 300 93.184.216.34
        7, b'e', b'x', b'a', b'm', b'p', b'l', b'e', 3, b'c', b'o', b'm', 0, 0x00, 0x01, 0x00,
        0x01, 0x00, 0x00, 0x01, 0x2c, 0x00, 0x04, 93, 184, 216, 34,
        // authority: example.com NS IN 300 ns1.example.com
        7, b'e', b'x', b'a', b'm', b'p', b'l', b'e', 3, b'c', b'o', b'm', 0, 0x00, 0x02, 0x00,
        0x01, 0x00, 0x00, 0x01, 0x2c, 0x00, 0x11, 3, b'n', b's', b'1', 7, b'e', b'x', b'a',
        b'm', b'p', b'l', b'e', 3, b'c', b'o', b'm', 0,
        // additional: ns1.example.com A IN 300 192.0.2.1
        3, b'n', b's', b'1', 7, b'e', b'x', b'a', b'm', b'p', b'l', b'e', 3, b'c', b'o', b'm',
        0, 0x00, 0x01, 0x00, 0x01, 0x00, 0x00, 0x01, 0x2c, 0x00, 0x04, 192, 0, 2, 1,
    ]
}

#[test]
fn dns_round_trip_preserves_fields() {
    let bytes = preserved_fields_packet();
    let packet: Packet = &bytes;

    let decoded = Message::try_from(packet).unwrap();

    let expected = Message::new(
        Header::new(0x1234, Flags::from(0x8180)),
        vec![Question {
            name: Name::from_labels(&["example", "com"]),
            record_type: 1,
            class: 1,
        }],
        vec![Record::new(
            Name::from_labels(&["example", "com"]),
            1,
            300,
            Data::A([93, 184, 216, 34]),
        )],
        vec![Record::new(
            Name::from_labels(&["example", "com"]),
            1,
            300,
            Data::Ns(Name::from_labels(&["ns1", "example", "com"])),
        )],
        vec![Record::new(
            Name::from_labels(&["ns1", "example", "com"]),
            1,
            300,
            Data::A([192, 0, 2, 1]),
        )],
    );

    assert_eq!(decoded, expected);

    let encoded: OwnedPacket = decoded.try_into().unwrap();
    assert_eq!(encoded.as_slice(), packet);

    let decoded_again = Message::try_from(encoded.as_slice()).unwrap();

    assert_eq!(decoded_again, expected);
}

#[test]
fn dns_encode_writes_sections_in_order() {
    let dns = Message::new(
        Header::new(1, Flags::from(0x8180)),
        vec![Question {
            name: Name::from_labels(&["google", "com"]),
            record_type: 1,
            class: 1,
        }],
        vec![],
        vec![],
        vec![],
    );

    let bytes: OwnedPacket = dns.try_into().unwrap();

    assert_eq!(
        bytes,
        vec![
            // header
            0x00, 0x01, 0x81, 0x80, 0x00, 0x01, 0x00, 0x00, 0x00, 0x00, 0x00, 0x00,
            // question
            6, b'g', b'o', b'o', b'g', b'l', b'e', 3, b'c', b'o', b'm', 0, 0x00, 0x01, 0x00,
            0x01,
        ]
    );
}

#[test]
fn dns_from_packet() {
    let packet: Packet = &[
        5, 159, 129, 128, 0, 1, 0, 1, 0, 0, 0, 1, 6, 103, 111, 111, 103, 108, 101, 3, 99, 111,
        109, 0, 0, 1, 0, 1, 192, 12, 0, 1, 0, 1, 0, 0, 0, 41, 0, 4, 172, 217, 29, 238, 0, 0,
        41, 2, 0, 0, 0, 0, 0, 0, 0,
    ];

    let packet: Message = Message::try_from(packet).unwrap();

    assert_eq!(packet.questions().len(), 1);
    assert_eq!(packet.answers().len(), 1);
}

fn glue_message(glue_name: Name, glue: Vec<Data>) -> Message {
    Message::new(
        Header::new(0x1234, Flags::from(0x8180)),
        vec![],
        vec![],
        vec![Record::new(
            Name::from_labels(&["example", "com"]),
            1,
            300,
            Data::Ns(Name::from_labels(&["ns1", "example", "com"])),
        )],
        glue.into_iter()
            .map(|d| Record::new(glue_name.clone(), 1, 300, d))
            .collect(),
    )
}

#[test]
fn referral_servers_extracts_matching_glue_records() {
    let name = Name::from_labels(&["ns1", "example", "com"]);
    let message = glue_message(
        name.clone(),
        vec![
            Data::A([192, 0, 2, 1]),
            Data::Aaaa([0x20, 0x01, 0x0d, 0xb8, 0, 0, 0, 0, 0, 0, 0, 0, 0, 0, 0, 1]),
        ],
    );

    let referral_servers: Vec<_> = message.referral_servers();

    assert_eq!(
        referral_servers,
        vec![ReferralServer {
            name: &name,
            addrs: vec![
                ServerAddr { ip: IpAddress::V4([192, 0, 2, 1]), port: 53 },
                ServerAddr {
                    ip: IpAddress::V6([0x20, 0x01, 0x0d, 0xb8, 0, 0, 0, 0, 0, 0, 0, 0, 0, 0, 0, 1]),
                    port: 53
                },
            ],
        }]
    );
}

#[test]
fn referral_servers_ignores_non_glue_records() {
    let message = glue_message(
        Name::from_labels(&["ns2", "example", "com"]),
        vec![Data::A([192, 0, 2, 2])],
    );

    let referral_servers: Vec<_> = message.referral_servers();

    assert!(referral_servers.is_empty());
}

#[test]
fn referrals_include_servers_without_glue() {
    let message = glue_message(
        Name::from_labels(&["ns2", "example", "com"]),
        vec![Data::A([192, 0, 2, 2])],
    );
    let referrals = message.referrals();
    assert_eq!(referrals.len(), 1);
    assert!(!referrals[0].has_glue());
    assert_eq!(referrals[0].ns_name(), &Name::from_labels(&["ns1", "example", "com"]));
    assert!(referrals[0].clone().into_addrs().is_empty());
}

#[test]
fn truncated_packet_is_an_io_error() {
    let mut bytes = preserved_fields_packet();
    bytes.truncate(bytes.len() - 1);
    match Message::try_from(bytes.as_slice()) {
        Err(DnsError::IO(e)) => assert_eq!(e.kind(), ErrorKind::UnexpectedEof),
        other => panic!("unexpected {:?}", other),
    }
    match Message::try_from(&[0x12, 0x34][..]) {
        Err(DnsError::IO(e)) => assert_eq!(e.kind(), ErrorKind::UnexpectedEof),
        other => panic!("unexpected {:?}", other),
    }
}

#[test]
fn inconsistent_data_length_is_a_record_error() {
    let mut bytes = preserved_fields_packet();
    // the answer's data length field: 4 becomes 5
    let at = 12 + 17 + 13 + 8 + 1;
    assert_eq!(bytes[at], 0x04);
    bytes[at] = 0x05;
    match Message::try_from(bytes.as_slice()) {
        Err(DnsError::RecordError(e)) => {
            assert_eq!(e, lib::dns::record::RecordError::InconsistentDataLength)
        }
        other => panic!("unexpected {:?}", other),
    }
}

#[test]
fn too_many_questions_cannot_be_encoded() {
    let question = Question { name: Name::new(), record_type: 1, class: 1 };
    let message = Message::new(
        Header::new(1, Flags::new()),
        vec![question; 65536],
        vec![],
        vec![],
        vec![],
    );
    assert!(matches!(message.try_into(), Err(DnsError::TryFromIntError(_))));
}

#[test]
fn faulty_packets_are_recognised() {
    assert!(Message::decodes_without_fault(&preserved_fields_packet()));
    // a question whose name points at itself
    let looping = [0, 1, 0, 0, 0, 1, 0, 0, 0, 0, 0, 0, 0xC0, 12, 0, 1, 0, 1];
    assert!(!Message::decodes_without_fault(&looping));
    // a label that is not UTF-8
    let not_utf8 = [0, 1, 0, 0, 0, 1, 0, 0, 0, 0, 0, 0, 1, 0xff, 0, 0, 1, 0, 1];
    assert!(!Message::decodes_without_fault(&not_utf8));
}

#[test]
fn new_query_has_one_question_and_clear_flags() {
    let question = Question { name: Name::from_labels(&["example"]), record_type: 28, class: 1 };
    let query = Message::new_query(9, question.clone());
    assert_eq!(query.id(), 9);
    assert_eq!(query.flags(), Flags::new());
    assert_eq!(query.questions(), &[question]);
    assert!(query.answers().is_empty());
    assert!(query.encodable());
    assert_eq!(query.duplicate(), query);
}

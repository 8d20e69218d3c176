use lib::dns::flags::{Flags, Opcode, QueryOrResponse, ResponseCode};

#[test]
fn query_or_response_uses_most_significant_bit() {
    assert_eq!(
        Flags::from(0b0000_0000_0000_0000).query_or_response(),
        QueryOrResponse::Query
    );
    assert_eq!(
        Flags::from(0b1000_0000_0000_0000).query_or_response(),
        QueryOrResponse::Response
    );
}

#[test]
fn opcode_extracts_the_opcode_bits() {
    assert_eq!(Flags::from(0b0000_0000_0000_0000).opcode(), Opcode::Query);
    assert_eq!(Flags::from(0b0000_1000_0000_0000).opcode(), Opcode::IQuery);
    assert_eq!(Flags::from(0b0001_0000_0000_0000).opcode(), Opcode::Status);
    assert_eq!(
        Flags::from(0b0111_1000_0000_0000).opcode(),
        Opcode::Unknown(15)
    );
}

#[test]
fn response_code_maps_the_low_four_bits() {
    assert_eq!(
        Flags::from(0b0000_0000_0000_0000).response_code(),
        ResponseCode::NoError
    );
    assert_eq!(
        Flags::from(0b0000_0000_0000_0001).response_code(),
        ResponseCode::FormatError
    );
    assert_eq!(
        Flags::from(0b0000_0000_0000_0010).response_code(),
        ResponseCode::ServerFailure
    );
    assert_eq!(
        Flags::from(0b0000_0000_0000_0011).response_code(),
        ResponseCode::NameError
    );
    assert_eq!(
        Flags::from(0b0000_0000_0000_0100).response_code(),
        ResponseCode::NotImplemented
    );
    assert_eq!(
        Flags::from(0b0000_0000_0000_0101).response_code(),
        ResponseCode::Refused
    );
    assert_eq!(
        Flags::from(0b0000_0000_0000_1111).response_code(),
        ResponseCode::Unknown(15)
    );
}

#[test]
fn flag_helpers_preserve_unrelated_bits() {
    let flags = Flags::from(0b0000_0001_0010_0011);

    assert_eq!(flags.into_response(), Flags::from(0b1000_0001_0010_0011));
    assert_eq!(
        flags.with_recursion_available(),
        Flags::from(0b0000_0001_1010_0011)
    );
    assert_eq!(
        flags.with_response_code(ResponseCode::Refused),
        Flags::from(0b0000_0001_0010_0101)
    );
}

#[test]
fn new_flags_are_all_clear() {
    let flags = Flags::new();
    assert_eq!(flags, Flags::from(0));
    assert_eq!(flags.query_or_response(), QueryOrResponse::Query);
    assert!(!flags.authoritative_answer());
    assert!(!flags.truncation());
    assert!(!flags.recursion_desired());
    assert!(!flags.recursion_available());
}

#[test]
fn single_bit_flags_read_their_bits() {
    assert!(Flags::from(0x0400).authoritative_answer());
    assert!(Flags::from(0x0200).truncation());
    assert!(Flags::from(0x0100).recursion_desired());
    assert!(Flags::from(0x0080).recursion_available());
    assert!(!Flags::from(0xfbff).authoritative_answer());
    assert!(!Flags::from(0xfdff).truncation());
    assert!(!Flags::from(0xfeff).recursion_desired());
    assert!(!Flags::from(0xff7f).recursion_available());
}

#[test]
fn response_code_reads_back_what_was_set() {
    let flags = Flags::from(0xffff);
    for code in [
        ResponseCode::NoError,
        ResponseCode::FormatError,
        ResponseCode::ServerFailure,
        ResponseCode::NameError,
        ResponseCode::NotImplemented,
        ResponseCode::Refused,
        ResponseCode::Unknown(9),
    ] {
        let updated = flags.with_response_code(code);
        assert_eq!(updated.response_code(), code);
        assert_eq!(updated, Flags::from(0xfff0 | u16::from(code)));
    }
    // an unknown code numbered like a named one reads back as the named one
    assert_eq!(
        flags.with_response_code(ResponseCode::Unknown(3)).response_code(),
        ResponseCode::NameError
    );
}

#[test]
fn response_code_above_fifteen_reaches_higher_bits() {
    let flags = Flags::from(0);
    assert_eq!(
        flags.with_response_code(ResponseCode::Unknown(0x90)),
        Flags::from(0x0090)
    );
}

#[test]
fn response_code_numbers() {
    assert_eq!(u16::from(ResponseCode::NoError), 0);
    assert_eq!(u16::from(ResponseCode::Refused), 5);
    assert_eq!(u16::from(ResponseCode::Unknown(200)), 200);
}

#[test]
fn into_response_is_idempotent() {
    let flags = Flags::from(0x1234);
    assert_eq!(flags.into_response(), flags.into_response().into_response());
    assert_eq!(flags.into_response(), Flags::from(0x9234));
}

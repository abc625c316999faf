use tpm2net::{DecodeError, NetPacket, Packet, PacketType, Tpm2Packet};

#[test]
fn create() {
    let p = Packet::new(PacketType::Command, vec![128, 0, 32, 64, 255]);
    let comp = hex::decode("C9C0000580002040FF36").unwrap();

    assert_eq!(p.bytes(), comp);
}

#[test]
fn parse() {
    // Even length
    let parsed = Packet::parse(&vec![0xC9, 0xC0, 0x00, 0x04, 128, 0, 32, 64, 0x36])
        .unwrap()
        .0;
    let constructed = Packet::new(PacketType::Command, vec![128, 0, 32, 64]);

    assert_eq!(parsed.bytes(), constructed.bytes());

    // Odd length
    let parsed = Packet::parse(&vec![0xC9, 0xC0, 0x00, 0x05, 128, 0, 32, 64, 255, 0x36])
        .unwrap()
        .0;
    let constructed = Packet::new(PacketType::Command, vec![128, 0, 32, 64, 255]);

    assert_eq!(parsed.bytes(), constructed.bytes());
}

#[test]
fn change() {
    let mut p = Packet::new(PacketType::Command, vec![0]);
    assert_eq!(p.bytes(), vec![0xC9, 0xC0, 0x00, 0x01, 0, 0x36]);

    p.update_payload(vec![0x12, 0x12]);
    assert_eq!(p.bytes(), vec![0xC9, 0xC0, 0x00, 0x02, 0x12, 0x12, 0x36]);
}

#[test]
fn tpm2_create() {
    let p = Tpm2Packet::new(PacketType::Command, vec![128, 0, 32, 64, 255]);
    let comp = hex::decode("C9C0000580002040FF36").unwrap();

    assert_eq!(p.bytes(), comp);
}

#[test]
fn tpm2_parse() {
    // Even length
    let parsed = Tpm2Packet::parse(&vec![0xC9, 0xC0, 0x00, 0x04, 128, 0, 32, 64, 0x36])
        .unwrap()
        .0;
    let constructed = Tpm2Packet::new(PacketType::Command, vec![128, 0, 32, 64]);

    assert_eq!(parsed.bytes(), constructed.bytes());

    // Odd length
    let parsed = Tpm2Packet::parse(&vec![0xC9, 0xC0, 0x00, 0x05, 128, 0, 32, 64, 255, 0x36])
        .unwrap()
        .0;
    let constructed = Tpm2Packet::new(PacketType::Command, vec![128, 0, 32, 64, 255]);

    assert_eq!(parsed.bytes(), constructed.bytes());
}

#[test]
fn decode_literal_yields_equal_packet() {
    let parsed = Tpm2Packet::parse(&[0xC9, 0xC0, 0x00, 0x04, 128, 0, 32, 64, 0x36])
        .unwrap()
        .0;
    let constructed = Tpm2Packet::new(PacketType::Command, vec![128, 0, 32, 64]);
    assert_eq!(parsed, constructed);
}

#[test]
fn roundtrip_returns_packet_and_empty_rest() {
    let p = Tpm2Packet::new(PacketType::DataFrame, vec![1, 2, 3, 4, 5, 6, 7]);
    let (q, rest) = Tpm2Packet::parse(&p.bytes()).unwrap();
    assert_eq!(q, p);
    assert_eq!(rest, Vec::<u8>::new());
}

#[test]
fn roundtrip_empty_payload() {
    let p = Tpm2Packet::new(PacketType::RequestedResponse, vec![]);
    assert_eq!(p.bytes(), vec![0xC9, 0xAA, 0x00, 0x00, 0x36]);
    let (q, rest) = Tpm2Packet::parse(&p.bytes()).unwrap();
    assert_eq!(q, p);
    assert!(rest.is_empty());
}

#[test]
fn parse_consumes_one_packet_of_a_stream() {
    let mut stream = Tpm2Packet::new(PacketType::Command, vec![9]).bytes();
    let second = Tpm2Packet::new(PacketType::DataFrame, vec![7, 8]).bytes();
    stream.extend_from_slice(&second);
    let (first, rest) = Tpm2Packet::parse(&stream).unwrap();
    assert_eq!(first, Tpm2Packet::new(PacketType::Command, vec![9]));
    assert_eq!(rest, second);
}

#[test]
fn unknown_type_byte_rejected() {
    let r = Tpm2Packet::parse(&[0xC9, 0x01, 0x00, 0x01, 5, 0x36]);
    assert_eq!(r.unwrap_err(), DecodeError::UnknownPacketType);
}

#[test]
fn bad_start_byte_rejected() {
    let r = Tpm2Packet::parse(&[0xC8, 0xC0, 0x00, 0x00, 0x36]);
    assert_eq!(r.unwrap_err(), DecodeError::InvalidStartByte);
}

#[test]
fn short_buffer_is_incomplete() {
    let r = Tpm2Packet::parse(&[0xC9, 0xC0, 0x00, 0x04, 128, 0]);
    assert_eq!(r.unwrap_err(), DecodeError::Incomplete);
}

#[test]
fn bad_end_byte_rejected() {
    let r = Tpm2Packet::parse(&[0xC9, 0xC0, 0x00, 0x01, 5, 0x37]);
    assert_eq!(r.unwrap_err(), DecodeError::InvalidEndByte);
}

#[test]
fn packet_type_codec() {
    assert_eq!(PacketType::DataFrame.to_byte(), 0xDA);
    assert_eq!(PacketType::Command.to_byte(), 0xC0);
    assert_eq!(PacketType::RequestedResponse.to_byte(), 0xAA);
    assert_eq!(PacketType::from_byte(0xDA).unwrap(), PacketType::DataFrame);
    assert_eq!(PacketType::from_byte(0xC0).unwrap(), PacketType::Command);
    assert_eq!(
        PacketType::from_byte(0xAA).unwrap(),
        PacketType::RequestedResponse
    );
    assert_eq!(
        PacketType::from_byte(0x01).unwrap_err(),
        DecodeError::UnknownPacketType
    );
    assert_eq!(
        PacketType::parse(&[0xDA, 0xFF]).unwrap(),
        PacketType::DataFrame
    );
    assert_eq!(PacketType::parse(&[]).unwrap_err(), DecodeError::Incomplete);
}

#[test]
fn net_fragment_roundtrip() {
    let f = NetPacket {
        packet_type: PacketType::DataFrame,
        frame_size: 5,
        packet_number: 2,
        packet_count: 3,
        payload: vec![10, 20, 30],
    };
    let encoded = f.bytes();
    assert_eq!(
        encoded,
        vec![0x9C, 0xDA, 0x00, 0x05, 2, 3, 10, 20, 30, 0x36]
    );
    let decoded = NetPacket::parse(&encoded).unwrap();
    assert_eq!(decoded, f);
}

#[test]
fn net_fragment_frame_size_below_two_rejected() {
    let r = NetPacket::parse(&[0x9C, 0xDA, 0x00, 0x01, 1, 1, 0x36]);
    assert_eq!(r.unwrap_err(), DecodeError::InvalidFrameSize);
}

#[test]
fn net_fragment_frame_size_mismatch_rejected() {
    // Declared size 4 promises two payload bytes, but three are present.
    let r = NetPacket::parse(&[0x9C, 0xDA, 0x00, 0x04, 1, 1, 10, 20, 30, 0x36]);
    assert_eq!(r.unwrap_err(), DecodeError::FrameSizeMismatch);
}

#[test]
fn net_fragment_bad_end_byte_rejected() {
    let r = NetPacket::parse(&[0x9C, 0xDA, 0x00, 0x04, 1, 1, 10, 20, 0x35]);
    assert_eq!(r.unwrap_err(), DecodeError::InvalidEndByte);
}

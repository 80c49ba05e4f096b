use quake3::huffman::HuffmanError;
use quake3::protocol::client::{self, parse_server_packet, ServerPacket};
use quake3::protocol::server::{
    self, parse_packet, ConnectMessage, ConnectionlessCommand, InvalidPacketError, Packet,
    ParseConnectMessageError,
};
use quake3::protocol::{
    ConnectionlessMessage, ConnectionlessPacket, FragmentInfo, FragmentLength, FragmentStart,
    PacketKind, PacketSequence, PacketSequenceNumber, QPort, CONNECTIONLESS_SEQUENCE,
    FRAGMENT_BIT, FRAGMENT_SIZE, MAX_PACKETLEN,
};

#[test]
fn client_sequencedpacket_new() {
    assert!(client::SequencedPacket::new(
        PacketSequenceNumber::new(42).unwrap(),
        QPort::new(27960).unwrap(),
        vec![0; FRAGMENT_SIZE]
    )
    .is_err());

    assert!(client::SequencedPacket::new(
        PacketSequenceNumber::new(42).unwrap(),
        QPort::new(27960).unwrap(),
        vec![0; FRAGMENT_SIZE - 1]
    )
    .is_ok());
}

#[test]
fn client_fragmentedpacket_new() {
    assert!(client::FragmentedPacket::new(
        PacketSequenceNumber::new(42).unwrap(),
        QPort::new(27960).unwrap(),
        FragmentStart::new(42).unwrap(),
        vec![0; FRAGMENT_SIZE + 1]
    )
    .is_err());

    assert!(client::FragmentedPacket::new(
        PacketSequenceNumber::new(42).unwrap(),
        QPort::new(27960).unwrap(),
        FragmentStart::new(42).unwrap(),
        vec![0; FRAGMENT_SIZE]
    )
    .is_ok());
}

#[test]
fn parse_server_packet_connectionless() {
    let payload = &b"\xFF\xFF\xFF\xFF\xDE\xAD\xBE\xEF"[..];

    let packet = parse_server_packet(payload).unwrap();
    match packet {
        ServerPacket::Connectionless(packet) => {
            assert_eq!(packet.payload(), &b"\xDE\xAD\xBE\xEF"[..]);
        }
        _ => panic!(),
    }
}

#[test]
fn parse_server_packet_sequenced() {
    let payload = &b"\x00\x00\x00\x00\xDE\xAD\xBE\xEF"[..];

    let packet = parse_server_packet(payload).unwrap();
    match packet {
        ServerPacket::Sequenced(packet) => {
            assert_eq!(packet.sequence(), PacketSequenceNumber::new(0).unwrap());
            assert_eq!(packet.payload(), &b"\xDE\xAD\xBE\xEF"[..]);
        }
        _ => panic!(),
    }
}

#[test]
fn parse_server_packet_fragmented() {
    let payload = &b"\x00\x00\x00\x80\x01\x00\x04\x00\xDE\xAD\xBE\xEF"[..];

    let packet = parse_server_packet(payload).unwrap();
    match packet {
        ServerPacket::Fragmented(packet) => {
            assert_eq!(packet.sequence(), PacketSequenceNumber::new(0).unwrap());
            assert_eq!(
                packet.fragment_info(),
                FragmentInfo::new(FragmentStart::new(1).unwrap(), FragmentLength::new(4).unwrap())
            );
            assert_eq!(packet.payload(), &b"\xDE\xAD\xBE\xEF"[..]);
        }
        _ => panic!(),
    }
}

#[test]
fn parse_server_packet_errors() {
    assert_eq!(parse_server_packet(b"\x00\x00\x00"), Err(client::InvalidServerPacketError::InvalidSize));
    assert_eq!(
        parse_server_packet(b"\x00\x00\x00\x80\x01\x00\x05\x00\xDE\xAD\xBE\xEF"),
        Err(client::InvalidServerPacketError::FragmentLengthMismatch)
    );
}

#[test]
fn packetsequencenumber_new() {
    assert!(PacketSequenceNumber::new(CONNECTIONLESS_SEQUENCE).is_err());

    assert!(PacketSequenceNumber::new(42 | FRAGMENT_BIT).is_err());

    assert!(PacketSequenceNumber::new(42).is_ok());
}

#[test]
fn packetsequence_new_with_number_and_fragment() {
    let sequence =
        PacketSequence::new_with_number_and_fragment(PacketSequenceNumber::new(42).unwrap(), true);
    assert!(sequence.is_fragmented());
    assert_eq!(sequence.number(), PacketSequenceNumber::new(42).unwrap());

    let sequence =
        PacketSequence::new_with_number_and_fragment(PacketSequenceNumber::new(69).unwrap(), false);
    assert!(!sequence.is_fragmented());
    assert_eq!(sequence.number(), PacketSequenceNumber::new(69).unwrap());
}

#[test]
fn packetkind_parse() {
    assert_eq!(
        PacketKind::parse(0xFF_FF_FF_FFu32 as i32),
        PacketKind::Connectionless
    );

    assert_eq!(
        PacketKind::parse(0x00_00_00_FFu32 as i32),
        PacketKind::Sequenced(PacketSequence::new_with_number_and_fragment(
            PacketSequenceNumber::new(0xFF).unwrap(),
            false
        ))
    );

    assert_eq!(
        PacketKind::parse(0x80_00_00_FFu32 as i32),
        PacketKind::Sequenced(PacketSequence::new_with_number_and_fragment(
            PacketSequenceNumber::new(0xFF).unwrap(),
            true
        ))
    );
}

#[test]
fn packet_sequence_bits() {
    let s = PacketSequence::new(0x80_00_00_2Au32 as i32);
    assert!(s.is_fragmented());
    assert_eq!(s.number().get(), 42);
    assert_eq!(PacketSequence::new(7).number().get(), 7);
}

#[test]
fn connectionlessmessage_new() {
    assert!(ConnectionlessMessage::new(vec![0; MAX_PACKETLEN + 1]).is_err());

    assert!(ConnectionlessMessage::new(Vec::new()).is_ok());

    assert!(ConnectionlessMessage::new(vec![0xDE, 0xAD, 0xBE, 0xEF]).is_ok());
}

#[test]
fn fragmentstart_new() {
    assert!(FragmentStart::new(MAX_PACKETLEN as u16).is_err());

    assert!(FragmentStart::new(42).is_ok());
}

#[test]
fn fragmentlength_new() {
    assert!(FragmentLength::new(FRAGMENT_SIZE as u16 + 1).is_err());

    assert!(FragmentLength::new(42).is_ok());
}

#[test]
fn fragmentlength_is_last_fragment() {
    assert!(FragmentLength::new(0).unwrap().is_last_fragment());

    assert!(FragmentLength::new(42 as u16 + 1).unwrap().is_last_fragment());

    assert!(!FragmentLength::new(FRAGMENT_SIZE as u16).unwrap().is_last_fragment());
}

#[test]
fn qport_new() {
    assert!(QPort::new(0).is_err());

    assert!(QPort::new(27960).is_ok());
}

#[test]
fn server_sequencedpacket_new() {
    assert!(
        server::SequencedPacket::new(PacketSequenceNumber::new(42).unwrap(), vec![0; FRAGMENT_SIZE]).is_err()
    );

    assert!(
        server::SequencedPacket::new(PacketSequenceNumber::new(42).unwrap(), vec![0; FRAGMENT_SIZE - 1])
            .is_ok()
    );
}

#[test]
fn server_fragmentedpacket_new() {
    assert!(server::FragmentedPacket::new(
        PacketSequenceNumber::new(42).unwrap(),
        FragmentStart::new(42).unwrap(),
        vec![0; FRAGMENT_SIZE + 1]
    )
    .is_err());

    assert!(server::FragmentedPacket::new(
        PacketSequenceNumber::new(42).unwrap(),
        FragmentStart::new(42).unwrap(),
        vec![0; FRAGMENT_SIZE]
    )
    .is_ok());
}

#[test]
fn parse_packet_invalidsize() {
    let payload = &b"\xFF"[..];

    let packet = parse_packet(payload);
    assert!(matches!(packet, Err(InvalidPacketError::InvalidSize)));
}

#[test]
fn parse_packet_connectionless() {
    let payload = &b"\xFF\xFF\xFF\xFF\xDE\xAD\xBE\xEF"[..];

    let packet = parse_packet(payload).unwrap();
    match packet {
        Packet::Connectionless(packet) => {
            assert_eq!(packet.payload(), &b"\xDE\xAD\xBE\xEF"[..]);
        }
        _ => panic!(),
    }
}

#[test]
fn parse_packet_sequenced() {
    let payload = &b"\x00\x00\x00\x00\x9A\x02\xDE\xAD\xBE\xEF"[..];

    let packet = parse_packet(payload).unwrap();
    match packet {
        Packet::Sequenced(packet) => {
            assert_eq!(packet.sequence(), PacketSequenceNumber::new(0).unwrap());
            assert_eq!(packet.qport(), QPort::new(666).unwrap());
            assert_eq!(packet.payload(), &b"\xDE\xAD\xBE\xEF"[..]);
        }
        _ => panic!(),
    }
}

#[test]
fn parse_packet_fragmented() {
    let payload = &b"\x00\x00\x00\x80\x9A\x02\x01\x00\x04\x00\xDE\xAD\xBE\xEF"[..];

    let packet = parse_packet(payload).unwrap();
    match packet {
        Packet::Fragmented(packet) => {
            assert_eq!(packet.sequence(), PacketSequenceNumber::new(0).unwrap());
            assert_eq!(packet.qport(), QPort::new(666).unwrap());
            assert_eq!(
                packet.fragment_info(),
                FragmentInfo::new(FragmentStart::new(1).unwrap(), FragmentLength::new(4).unwrap())
            );
            assert_eq!(packet.payload(), &b"\xDE\xAD\xBE\xEF"[..]);
            assert!(packet.is_last());
        }
        _ => panic!(),
    }
}

#[test]
fn parse_packet_errors() {
    assert_eq!(parse_packet(b""), Err(InvalidPacketError::InvalidSize));
    assert_eq!(parse_packet(b"\x00\x00\x00\x00\x9A"), Err(InvalidPacketError::InvalidSize));
    assert!(matches!(parse_packet(b"\x00\x00\x00\x00\x00\x00\xDE"), Err(InvalidPacketError::InvalidQPort(_))));
    assert_eq!(parse_packet(b"\x00\x00\x00\x80\x9A\x02\x01"), Err(InvalidPacketError::InvalidSize));
    assert!(matches!(
        parse_packet(b"\x00\x00\x00\x80\x9A\x02\x78\x05\x00\x00"),
        Err(InvalidPacketError::InvalidFragmentStart(_))
    ));
    assert!(matches!(
        parse_packet(b"\x00\x00\x00\x80\x9A\x02\x01\x00\x15\x05"),
        Err(InvalidPacketError::InvalidFragmentLength(_))
    ));
    assert_eq!(
        parse_packet(b"\x00\x00\x00\x80\x9A\x02\x01\x00\x03\x00\xDE\xAD\xBE\xEF"),
        Err(InvalidPacketError::FragmentLengthMismatch)
    );
    let mut long = vec![0xFFu8; 4];
    long.extend(vec![0u8; MAX_PACKETLEN + 1]);
    assert!(matches!(parse_packet(&long), Err(InvalidPacketError::InvalidConnectionlessPacket(_))));
    let mut long = vec![0u8, 0, 0, 0, 0x9A, 0x02];
    long.extend(vec![0u8; FRAGMENT_SIZE]);
    assert!(matches!(parse_packet(&long), Err(InvalidPacketError::InvalidSequencedPacket(_))));
}

#[test]
fn connectionless_command_parse() {
    assert_eq!(ConnectionlessCommand::parse(b"getstatus"), Ok(ConnectionlessCommand::GetStatus));
    assert_eq!(ConnectionlessCommand::parse(b"GetInfo"), Ok(ConnectionlessCommand::GetInfo));
    assert_eq!(ConnectionlessCommand::parse(b"getchallenge"), Ok(ConnectionlessCommand::GetChallenge));
    assert_eq!(ConnectionlessCommand::parse(b"CONNECT"), Ok(ConnectionlessCommand::Connect));
    assert_eq!(ConnectionlessCommand::parse(b"ipauthorize"), Ok(ConnectionlessCommand::IpAuthorize));
    assert!(ConnectionlessCommand::parse(b"connectx").is_err());
    assert!(ConnectionlessCommand::parse(b"").is_err());
}

const USERINFO_BLOB: [u8; 229] = [
    0x44, 0x74, 0x30, 0x8e, 0x05, 0x0c, 0xc7, 0x26, 0xc3, 0x14, 0xec, 0x8e,
    0xf9, 0x67, 0xd0, 0x1a, 0x4e, 0x29, 0x98, 0x01, 0xc7, 0xc3, 0x7a, 0x30,
    0x2c, 0x2c, 0x19, 0x1c, 0x13, 0x87, 0xc2, 0xde, 0x71, 0x0a, 0x5c, 0xac,
    0x30, 0xcd, 0x40, 0xce, 0x3a, 0xca, 0xaf, 0x96, 0x2a, 0xb0, 0xd9, 0x3a,
    0xb7, 0xb0, 0xfd, 0x4d, 0xa8, 0x0e, 0xc9, 0xba, 0x79, 0x4c, 0x28, 0x0a,
    0xc4, 0x0a, 0x4f, 0x83, 0x02, 0x9b, 0x9f, 0x69, 0xe4, 0x0a, 0xc3, 0x38,
    0x47, 0x9b, 0xcf, 0x22, 0xaf, 0x61, 0xf6, 0x64, 0x6f, 0x13, 0x7c, 0xa3,
    0xae, 0x1f, 0xaf, 0x06, 0x52, 0xb7, 0x3c, 0xa3, 0x06, 0x5f, 0x3a, 0xf4,
    0x8f, 0x66, 0xd2, 0x40, 0xac, 0xee, 0x2b, 0x2d, 0xea, 0x38, 0x18, 0xf9,
    0xb7, 0xf2, 0x36, 0x37, 0x80, 0xea, 0x17, 0xe9, 0xd5, 0x40, 0x58, 0xf7,
    0x0f, 0xc6, 0xb2, 0x3a, 0x85, 0xe5, 0xbb, 0xca, 0xf7, 0x78, 0x77, 0x09,
    0x2c, 0xe1, 0xe5, 0x7b, 0xcc, 0xad, 0x59, 0x0f, 0x3c, 0xea, 0x67, 0x2a,
    0x37, 0x1a, 0x31, 0xc7, 0x83, 0xe5, 0x02, 0xd7, 0xd1, 0xdd, 0xc0, 0x73,
    0xeb, 0xe6, 0x5d, 0x4c, 0x32, 0x87, 0xa4, 0xa4, 0x8d, 0x2e, 0x1b, 0x08,
    0x0b, 0x38, 0x11, 0xac, 0x7b, 0x9a, 0x34, 0x16, 0xe2, 0xe6, 0xd1, 0x3b,
    0xf0, 0xf8, 0xf2, 0x99, 0xda, 0xc4, 0x91, 0xb7, 0x4b, 0x53, 0xcf, 0x82,
    0xa6, 0xda, 0x10, 0x61, 0x89, 0xb0, 0x5b, 0x6c, 0x6e, 0xc3, 0x46, 0xe3,
    0xb7, 0x7c, 0x19, 0x62, 0x38, 0xac, 0x42, 0x48, 0x23, 0xab, 0x11, 0xe6,
    0x20, 0x0a, 0xb8, 0x75, 0x91, 0x26, 0x12, 0x6e, 0x92, 0x25, 0x65, 0xc9,
    0x00,
];

#[test]
fn connectmessage_parse_message() {
    let mut encoded_bytes = b"connect \x28\x01".to_vec();
    encoded_bytes.extend_from_slice(&USERINFO_BLOB);
    assert_eq!(encoded_bytes.len(), 239);

    let packet = ConnectionlessPacket::new(encoded_bytes).unwrap();
    let connect_message = ConnectMessage::parse_packet(&packet).unwrap();

    let user_info = connect_message.user_info();

    assert!(user_info.len() == 19);
    let (k, v) = user_info.get_index(0).unwrap();
    assert_eq!(k.as_bytes(), b"challenge");
    assert_eq!(v.as_bytes(), b"-9938504");
}

#[test]
fn connectmessage_errors() {
    let p = |b: &[u8]| ConnectMessage::parse_packet(&ConnectionlessPacket::new(b.to_vec()).unwrap()).err();
    assert_eq!(p(b"getinfo xx"), Some(ParseConnectMessageError::InvalidCommand));
    assert_eq!(p(b"connect"), Some(ParseConnectMessageError::MissingSpace));
    assert_eq!(p(b"connect \x03"), Some(ParseConnectMessageError::InvalidLength));
    assert_eq!(p(b"connect \x03\x00\x86"), Some(ParseConnectMessageError::Huffman(HuffmanError::Truncated)));
    // "aab" decodes, but is not enclosed in quotes
    assert_eq!(p(b"connect \x03\x00\x86\x19\x01"), Some(ParseConnectMessageError::MissingQuotes));
}

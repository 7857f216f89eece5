use bitchat_rust::protocol::{
    AnnouncementPacket, BitchatMessage, BitchatPacket, FragmentPacket, MessageFlags, MessageType,
    PacketFlags,
};

fn random_id() -> [u8; 16] {
    *uuid::Uuid::new_v4().as_bytes()
}

#[test]
fn test_fragment_packet_roundtrip() {
    let packet = FragmentPacket { id: random_id(), index: 1, count: 5, data: vec![1, 2, 3, 4, 5] };

    let encoded = packet.to_bytes();
    let decoded = FragmentPacket::from_bytes(&encoded).unwrap();

    assert_eq!(packet, decoded);
}

#[test]
fn test_announce_packet_roundtrip() {
    let packet = AnnouncementPacket {
        nickname: "Alice".to_string(),
        noise_public_key: vec![1; 32],
        signing_public_key: vec![2; 32],
    };

    let encoded = packet.to_bytes();
    let decoded = AnnouncementPacket::from_bytes(&encoded).unwrap();

    assert_eq!(packet, decoded);
}

#[test]
fn test_bitchat_message_roundtrip() {
    let message = BitchatMessage {
        flags: MessageFlags::is_private().union(MessageFlags::has_recipient_nickname()),
        timestamp: 1234567890,
        id: random_id(),
        sender: "Alice".to_string(),
        content: "Hello Bob!".to_string(),
        original_sender: None,
        recipient_nickname: Some("Bob".to_string()),
    };

    let encoded = message.to_bytes();
    let decoded = BitchatMessage::from_bytes(&encoded).unwrap();

    assert_eq!(message, decoded);
}

#[test]
fn test_bitchat_packet_roundtrip() {
    let message = BitchatMessage {
        flags: MessageFlags::is_private(),
        timestamp: 1234567890,
        id: random_id(),
        sender: "Alice".to_string(),
        content: "Hello Bob!".to_string(),
        original_sender: None,
        recipient_nickname: Some("Bob".to_string()),
    };
    let payload = message.to_bytes();

    let packet = BitchatPacket {
        version: 1,
        packet_type: MessageType::Message,
        ttl: 3,
        timestamp: 9876543210,
        flags: PacketFlags::has_recipient().union(PacketFlags::has_signature()),
        sender_id: [1; 8],
        recipient_id: Some([2; 8]),
        payload,
        signature: Some([3; 64]),
    };

    let encoded = packet.to_bytes();
    let decoded = BitchatPacket::from_bytes(&encoded).unwrap();

    assert_eq!(packet, decoded);
}

#[test]
fn test_bitchat_packet_broadcast_roundtrip() {
    let packet = BitchatPacket {
        version: 1,
        packet_type: MessageType::Message,
        ttl: 7,
        timestamp: 1111111111,
        flags: PacketFlags::empty(),
        sender_id: [9; 8],
        recipient_id: None,
        payload: vec![1, 2, 3, 4, 5],
        signature: None,
    };

    let encoded = packet.to_bytes();
    let decoded = BitchatPacket::from_bytes(&encoded).unwrap();

    assert_eq!(packet, decoded);
}

fn sample_packet() -> BitchatPacket {
    BitchatPacket {
        version: 1,
        packet_type: MessageType::Announce,
        ttl: 1,
        timestamp: 0x0102030405060708,
        flags: PacketFlags::empty(),
        sender_id: [0xaa; 8],
        recipient_id: None,
        payload: vec![0x10, 0x20],
        signature: None,
    }
}

#[test]
fn packet_layout_is_big_endian_header_then_fields() {
    let bytes = sample_packet().to_bytes();
    assert_eq!(
        bytes,
        vec![
            1, 0x01, 1, 1, 2, 3, 4, 5, 6, 7, 8, 0, 0, 2, 0xaa, 0xaa, 0xaa, 0xaa, 0xaa, 0xaa,
            0xaa, 0xaa, 0x10, 0x20
        ]
    );
}

#[test]
fn packet_ignores_trailing_padding() {
    let mut bytes = sample_packet().to_bytes();
    bytes.extend_from_slice(&[0, 0, 0, 0, 0, 0, 0]);
    assert_eq!(BitchatPacket::from_bytes(&bytes).unwrap(), sample_packet());
}

#[test]
fn packet_drops_unknown_flag_bits() {
    let mut bytes = sample_packet().to_bytes();
    bytes[11] = 0xf8;
    let decoded = BitchatPacket::from_bytes(&bytes).unwrap();
    assert_eq!(decoded.flags.bits(), 0);
}

#[test]
fn packet_errors_name_the_missing_part() {
    assert_eq!(BitchatPacket::from_bytes(&[1, 2, 3]).unwrap_err(), "Data too short for header");
    let mut bytes = sample_packet().to_bytes();
    bytes[0] = 2;
    assert_eq!(BitchatPacket::from_bytes(&bytes).unwrap_err(), "Unsupported protocol version: 2");
    let mut bytes = sample_packet().to_bytes();
    bytes[1] = 0x99;
    assert_eq!(BitchatPacket::from_bytes(&bytes).unwrap_err(), "Unknown message type: 153");
    let bytes = sample_packet().to_bytes();
    assert_eq!(BitchatPacket::from_bytes(&bytes[..20]).unwrap_err(), "Data too short for sender ID");
    let mut bytes = sample_packet().to_bytes();
    bytes[11] = 1;
    assert_eq!(BitchatPacket::from_bytes(&bytes[..24]).unwrap_err(), "Data too short for recipient ID");
    let bytes = sample_packet().to_bytes();
    assert_eq!(BitchatPacket::from_bytes(&bytes[..23]).unwrap_err(), "Data too short for payload");
    let mut bytes = sample_packet().to_bytes();
    bytes[11] = 2;
    assert_eq!(BitchatPacket::from_bytes(&bytes).unwrap_err(), "Data too short for signature");
}

#[test]
fn packet_payload_length_is_written_modulo_two_to_sixteen() {
    let mut packet = sample_packet();
    packet.payload = vec![7; 65536 + 3];
    let bytes = packet.to_bytes();
    assert_eq!(&bytes[12..14], &[0, 3]);
    assert_eq!(bytes.len(), 14 + 8 + 65539);
}

#[test]
fn fragment_layout_and_short_input() {
    let f = FragmentPacket { id: [0x11; 16], index: 0x0102, count: 0x0304, data: vec![9] };
    let bytes = f.to_bytes();
    assert_eq!(&bytes[16..21], &[1, 2, 3, 4, 9]);
    assert_eq!(FragmentPacket::from_bytes(&bytes[..19]).unwrap_err(), "Data too short for FragmentPacket");
    let empty = FragmentPacket::from_bytes(&bytes[..20]).unwrap();
    assert!(empty.data.is_empty());
}

#[test]
fn announcement_without_nickname_is_refused() {
    let packet = AnnouncementPacket {
        nickname: String::new(),
        noise_public_key: vec![1; 4],
        signing_public_key: vec![2; 4],
    };
    let bytes = packet.to_bytes();
    assert_eq!(bytes, vec![2, 4, 1, 1, 1, 1, 3, 4, 2, 2, 2, 2]);
    assert_eq!(
        AnnouncementPacket::from_bytes(&bytes).unwrap_err(),
        "Missing required fields in AnnouncementPacket"
    );
}

#[test]
fn announcement_tlv_rules() {
    // A record that runs past the end.
    assert_eq!(AnnouncementPacket::from_bytes(&[1, 5, 65]).unwrap_err(), "Invalid TLV length");
    // Unknown records are skipped, later records win, a trailing byte is ignored.
    let bytes = vec![9, 1, 0, 1, 1, 65, 1, 1, 66, 2, 1, 7, 3, 1, 8, 4];
    let a = AnnouncementPacket::from_bytes(&bytes).unwrap();
    assert_eq!(a.nickname, "B");
    assert_eq!(a.noise_public_key, vec![7]);
    assert_eq!(a.signing_public_key, vec![8]);
    // Invalid UTF-8 in the nickname is replaced.
    let a = AnnouncementPacket::from_bytes(&[1, 1, 0xff, 2, 0, 3, 0]).unwrap();
    assert_eq!(a.nickname, "\u{fffd}");
}

#[test]
fn message_id_is_written_as_hyphenated_text() {
    let mut id = [0u8; 16];
    for (i, b) in id.iter_mut().enumerate() {
        *b = (i as u8) * 17;
    }
    let message = BitchatMessage {
        flags: MessageFlags::empty(),
        timestamp: 5,
        id,
        sender: "a".to_string(),
        content: "b".to_string(),
        original_sender: None,
        recipient_nickname: None,
    };
    let bytes = message.to_bytes();
    assert_eq!(bytes[9], 36);
    assert_eq!(
        std::str::from_utf8(&bytes[10..46]).unwrap(),
        "00112233-4455-6677-8899-aabbccddeeff"
    );
    assert_eq!(&bytes[46..], &[1, b'a', 0, 1, b'b']);
}

#[test]
fn message_long_sender_is_cut_to_255_bytes() {
    let message = BitchatMessage {
        flags: MessageFlags::empty(),
        timestamp: 5,
        id: [1; 16],
        sender: "x".repeat(300),
        content: String::new(),
        original_sender: None,
        recipient_nickname: None,
    };
    let bytes = message.to_bytes();
    assert_eq!(bytes[46], 255);
    let decoded = BitchatMessage::from_bytes(&bytes).unwrap();
    assert_eq!(decoded.sender, "x".repeat(255));
}

#[test]
fn message_errors() {
    assert_eq!(BitchatMessage::from_bytes(&[]).unwrap_err(), "Cannot decode empty message");
    assert_eq!(BitchatMessage::from_bytes(&[0, 1, 2]).unwrap_err(), "Data too short for timestamp");
    assert_eq!(BitchatMessage::from_bytes(&[0; 9]).unwrap_err(), "Data too short for ID length");
    assert_eq!(BitchatMessage::from_bytes(&[0, 0, 0, 0, 0, 0, 0, 0, 0, 3, 1]).unwrap_err(), "Data too short for ID");
    let err = BitchatMessage::from_bytes(&[0, 0, 0, 0, 0, 0, 0, 0, 0, 1, b'z']).unwrap_err();
    assert!(err.starts_with("UUID parse error: "));
    let message = BitchatMessage {
        flags: MessageFlags::has_original_sender(),
        timestamp: 5,
        id: [1; 16],
        sender: "s".to_string(),
        content: "c".to_string(),
        original_sender: None,
        recipient_nickname: None,
    };
    let bytes = message.to_bytes();
    assert_eq!(
        BitchatMessage::from_bytes(&bytes).unwrap_err(),
        "Data too short for original_sender length"
    );
}

#[test]
fn message_accepts_other_uuid_forms() {
    let mut bytes = vec![0u8; 9];
    let simple = b"00112233445566778899aabbccddeeff";
    bytes.push(simple.len() as u8);
    bytes.extend_from_slice(simple);
    bytes.extend_from_slice(&[0, 0, 0]);
    let m = BitchatMessage::from_bytes(&bytes).unwrap();
    assert_eq!(m.id[0], 0x00);
    assert_eq!(m.id[15], 0xff);
}

#[test]
fn announcement_encoding_keeps_decoding_with_one_trailing_byte() {
    let packet = AnnouncementPacket {
        nickname: "Zoë".to_string(),
        noise_public_key: vec![5; 32],
        signing_public_key: vec![6; 32],
    };
    for x in [0u8, 1, 2, 3, 255] {
        let bytes = [packet.to_bytes(), vec![x]].concat();
        assert_eq!(AnnouncementPacket::from_bytes(&bytes).unwrap(), packet);
    }
}

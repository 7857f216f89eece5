use bitchat_rust::identity::UserIdentity;
use bitchat_rust::network::{
    after_handshake_step, after_responder_step, PeerState,
    derive_bitchat_id, BleCommand, BleEvent, NetworkAction, NetworkEvent, NetworkManager, UiCommand,
    MAX_TEXT_SURE_TO_FIT,
};
use bitchat_rust::protocol::{
    header_overrun, AnnouncementPacket, BitchatMessage, BitchatPacket, FragmentPacket, MessageType,
    PacketFlags,
};
use bitchat_rust::noise::{NoiseError, NoiseSession};
use sha2::Digest;

const A: u64 = 1;
const B: u64 = 2;

fn node() -> NetworkManager {
    NetworkManager::new(UserIdentity::generate().unwrap())
}

/// The one radio write in `acts`, with its receiver.
fn single_send(acts: &[NetworkAction]) -> (u64, Vec<u8>) {
    let sends = sends(acts);
    assert_eq!(sends.len(), 1, "{:?}", acts);
    sends.into_iter().next().unwrap()
}

fn sends(acts: &[NetworkAction]) -> Vec<(u64, Vec<u8>)> {
    acts.iter()
        .filter_map(|a| match a {
            NetworkAction::Ble(BleCommand::SendData { receiver, data }) => Some((*receiver, data.clone())),
            _ => None,
        })
        .collect()
}

fn deliver(to: &mut NetworkManager, from: u64, data: Vec<u8>) -> Vec<NetworkAction> {
    to.handle_ble_event(BleEvent::DataReceived { sender: from, data })
}

/// Two nodes that found each other: `a` knows `b` as peer `B`, `b` knows `a`
/// as peer `A`, and the handshake has run to the end.
fn connected_pair() -> (NetworkManager, NetworkManager) {
    let mut a = node();
    let mut b = node();
    a.handle_ble_event(BleEvent::Discovered { id: B, name: "b".to_string() });
    b.handle_ble_event(BleEvent::Discovered { id: A, name: "a".to_string() });

    // a announces itself; b answers with the first handshake message.
    let (_, announce) = single_send(&a.handle_ble_event(BleEvent::ServicesDiscovered(B)));
    let (to, init) = single_send(&deliver(&mut b, A, announce));
    assert_eq!(to, A);

    // a responds; b finishes its side.
    let (to, reply) = single_send(&deliver(&mut a, B, init));
    assert_eq!(to, B);
    let acts = deliver(&mut b, A, reply);
    let (to, last) = single_send(&acts);
    assert_eq!(to, A);
    assert!(acts.iter().any(|x| matches!(x, NetworkAction::Event(NetworkEvent::PeerConnected(A)))));

    let acts = deliver(&mut a, B, last);
    assert_eq!(acts.len(), 1);
    assert!(matches!(acts[0], NetworkAction::Event(NetworkEvent::PeerConnected(B))));
    (a, b)
}

#[test]
fn discovery_records_the_peer_and_connects_once() {
    let mut a = node();
    let acts = a.handle_ble_event(BleEvent::Discovered { id: 7, name: "phone".to_string() });
    assert_eq!(acts.len(), 2);
    match &acts[0] {
        NetworkAction::Event(NetworkEvent::PeerDiscovered { id, name }) => {
            assert_eq!(*id, 7);
            assert_eq!(name, "phone");
        }
        other => panic!("unexpected {:?}", other),
    }
    assert!(matches!(acts[1], NetworkAction::Ble(BleCommand::Connect(7))));
    assert!(a.knows_peer(7));
    assert!(!a.knows_peer(8));

    let again = a.handle_ble_event(BleEvent::Discovered { id: 7, name: "other".to_string() });
    assert!(again.is_empty());
}

#[test]
fn connection_and_disconnection_are_reported() {
    let mut a = node();
    let acts = a.handle_ble_event(BleEvent::Connected(3));
    assert_eq!(acts.len(), 1);
    assert!(matches!(acts[0], NetworkAction::Event(NetworkEvent::PeerConnected(3))));
    let acts = a.handle_ble_event(BleEvent::Disconnected(3));
    assert_eq!(acts.len(), 1);
    assert!(matches!(acts[0], NetworkAction::Event(NetworkEvent::PeerDisconnected(3))));
}

#[test]
fn services_discovered_sends_the_announcement() {
    let mut a = node();
    let (to, bytes) = single_send(&a.handle_ble_event(BleEvent::ServicesDiscovered(9)));
    assert_eq!(to, 9);
    let packet = BitchatPacket::from_bytes(&bytes).unwrap();
    assert_eq!(packet.packet_type, MessageType::Announce);
    assert_eq!(packet.ttl, 1);
    assert_eq!(packet.version, 1);
    assert_eq!(packet.recipient_id, None);
    assert_eq!(packet.signature, None);
    assert_eq!(packet.flags, PacketFlags::empty());
    assert_eq!(packet.sender_id, a.self_bitchat_id());
    let announce = AnnouncementPacket::from_bytes(&packet.payload).unwrap();
    assert_eq!(announce.nickname, "bitchat-rust-user");
    assert_eq!(announce.signing_public_key.len(), 32);
}

#[test]
fn bitchat_id_is_the_first_eight_bytes_of_the_sha256_digest() {
    let key = b"some public key";
    let digest = sha2::Sha256::digest(key);
    assert_eq!(derive_bitchat_id(key).to_vec(), digest[..8].to_vec());
    // SHA-256 of the empty input starts with e3b0c442 98fc1c14.
    assert_eq!(derive_bitchat_id(b""), [0xe3, 0xb0, 0xc4, 0x42, 0x98, 0xfc, 0x1c, 0x14]);
}

#[test]
fn data_from_unknown_peers_and_garbage_are_ignored() {
    let mut a = node();
    assert!(deliver(&mut a, 42, vec![1, 2, 3]).is_empty());
    a.handle_ble_event(BleEvent::Discovered { id: 42, name: "x".to_string() });
    assert!(deliver(&mut a, 42, vec![1, 2, 3]).is_empty());
    assert!(deliver(&mut a, 42, vec![9; 40]).is_empty());
}

#[test]
fn announcement_from_a_discovered_peer_starts_a_handshake() {
    let mut a = node();
    let mut b = node();
    b.handle_ble_event(BleEvent::Discovered { id: A, name: "a".to_string() });
    let (_, announce) = single_send(&a.handle_ble_event(BleEvent::ServicesDiscovered(B)));
    let (to, init) = single_send(&deliver(&mut b, A, announce));
    assert_eq!(to, A);
    let packet = BitchatPacket::from_bytes(&init).unwrap();
    assert_eq!(packet.packet_type, MessageType::NoiseHandshake);
    assert_eq!(packet.ttl, 1);
    assert_eq!(packet.sender_id, b.self_bitchat_id());
    // The first message of the XX pattern is the initiator's ephemeral key.
    assert_eq!(packet.payload.len(), 32);
}

#[test]
fn messages_travel_encrypted_between_connected_peers() {
    let (mut a, mut b) = connected_pair();
    let acts = a.handle_ui_command(UiCommand::SendMessage("hello there".to_string()));
    let (to, bytes) = single_send(&acts);
    assert_eq!(to, B);
    let outer = BitchatPacket::from_bytes(&bytes).unwrap();
    assert_eq!(outer.packet_type, MessageType::NoiseEncrypted);
    assert_eq!(outer.ttl, 1);
    assert_eq!(outer.sender_id, a.self_bitchat_id());

    let acts = deliver(&mut b, A, bytes);
    assert_eq!(acts.len(), 1);
    match &acts[0] {
        NetworkAction::Event(NetworkEvent::NewMessage { sender_id, sender_name, content, timestamp }) => {
            assert_eq!(*sender_id, A);
            assert_eq!(sender_name, "bitchat-rust-user");
            assert_eq!(content, "hello there");
            assert_eq!(*timestamp, outer.timestamp);
        }
        other => panic!("unexpected {:?}", other),
    }

    // The other direction works too.
    let acts = b.handle_ui_command(UiCommand::SendPrivateMessage { recipient: A, text: "hi".to_string() });
    let (to, bytes) = single_send(&acts);
    assert_eq!(to, A);
    let acts = deliver(&mut a, B, bytes);
    assert_eq!(acts.len(), 1);
    assert!(matches!(&acts[0], NetworkAction::Event(NetworkEvent::NewMessage { content, .. }) if content == "hi"));
}

#[test]
fn a_replayed_message_is_not_delivered_twice() {
    let (mut a, mut b) = connected_pair();
    let (_, bytes) = single_send(&a.handle_ui_command(UiCommand::SendMessage("once".to_string())));
    assert_eq!(deliver(&mut b, A, bytes.clone()).len(), 1);
    assert!(deliver(&mut b, A, bytes).is_empty());
}

#[test]
fn private_messages_need_a_connected_recipient() {
    let mut a = node();
    assert!(a.handle_ui_command(UiCommand::SendPrivateMessage { recipient: 5, text: "x".to_string() }).is_empty());
    a.handle_ble_event(BleEvent::Discovered { id: 5, name: "five".to_string() });
    assert!(a.handle_ui_command(UiCommand::SendPrivateMessage { recipient: 5, text: "x".to_string() }).is_empty());
    assert!(a.handle_ui_command(UiCommand::SendMessage("x".to_string())).is_empty());
}

#[test]
fn a_disconnected_peer_gets_no_more_messages() {
    let (mut a, _b) = connected_pair();
    let acts = a.handle_ble_event(BleEvent::Disconnected(B));
    assert_eq!(acts.len(), 1);
    assert!(matches!(acts[0], NetworkAction::Event(NetworkEvent::PeerDisconnected(B))));
    assert!(a.knows_peer(B));
    assert!(a.handle_ui_command(UiCommand::SendMessage("x".to_string())).is_empty());
}

#[test]
fn long_messages_are_compressed_and_fragmented() {
    let (mut a, mut b) = connected_pair();
    // Text that does not compress well: a long run of distinct decimal numbers.
    let mut text = String::new();
    let mut x: u64 = 12345;
    for _ in 0..200 {
        x = x.wrapping_mul(6364136223846793005).wrapping_add(1442695040888963407);
        text.push_str(&format!("{} ", x >> 33));
    }
    let acts = a.handle_ui_command(UiCommand::SendMessage(text.clone()));
    let parts = sends(&acts);
    assert!(parts.len() > 1);
    let mut joined = Vec::new();
    let mut id = None;
    for (k, (to, bytes)) in parts.iter().enumerate() {
        assert_eq!(*to, B);
        let packet = BitchatPacket::from_bytes(bytes).unwrap();
        assert_eq!(packet.packet_type, MessageType::Fragment);
        assert_eq!(packet.ttl, 1);
        let fragment = FragmentPacket::from_bytes(&packet.payload).unwrap();
        assert_eq!(fragment.index as usize, k);
        assert_eq!(fragment.count as usize, parts.len());
        if k + 1 < parts.len() {
            assert_eq!(fragment.data.len(), 460);
        }
        if let Some(i) = id {
            assert_eq!(fragment.id, i);
        }
        id = Some(fragment.id);
        joined.extend_from_slice(&fragment.data);
    }
    // The fragments carry the encrypted packet, whose inner message was
    // compressed.
    let outer = BitchatPacket::from_bytes(&joined).unwrap();
    assert_eq!(outer.packet_type, MessageType::NoiseEncrypted);
    assert!(outer.payload.len() > 480);

    // The receiver records every fragment; completing the message emits
    // nothing and leaves the peer half-handled, so later traffic is ignored.
    for (_, bytes) in parts {
        assert!(deliver(&mut b, A, bytes).is_empty());
    }
    let (_, small) = single_send(&a.handle_ui_command(UiCommand::SendMessage("short".to_string())));
    assert!(deliver(&mut b, A, small).is_empty());
}

#[test]
fn plaintext_chat_messages_from_connected_peers_are_delivered_once() {
    let (mut a, mut b) = connected_pair();
    let message = BitchatMessage {
        flags: bitchat_rust::protocol::MessageFlags::empty(),
        timestamp: 5,
        id: *uuid::Uuid::new_v4().as_bytes(),
        sender: "x".to_string(),
        content: "in the clear".to_string(),
        original_sender: None,
        recipient_nickname: None,
    };
    let packet = BitchatPacket {
        version: 1,
        packet_type: MessageType::Message,
        ttl: 1,
        timestamp: 77,
        flags: PacketFlags::empty(),
        sender_id: a.self_bitchat_id(),
        recipient_id: None,
        payload: message.to_bytes(),
        signature: None,
    };
    let acts = deliver(&mut b, A, packet.to_bytes());
    assert_eq!(acts.len(), 1);
    match &acts[0] {
        NetworkAction::Event(NetworkEvent::NewMessage { content, timestamp, .. }) => {
            assert_eq!(content, "in the clear");
            assert_eq!(*timestamp, 77);
        }
        other => panic!("unexpected {:?}", other),
    }
    assert!(deliver(&mut b, A, packet.to_bytes()).is_empty());
    let _ = &mut a;
}

#[test]
fn identities_are_consistent_and_tampering_is_noticed() {
    let id = UserIdentity::generate().unwrap();
    assert!(id.is_consistent());
    assert_eq!(id.noise_keypair.public.len(), 32);
    assert_eq!(id.noise_keypair.private.len(), 32);

    let mut broken = id;
    broken.signing_keypair.keypair_bytes[40] ^= 1;
    assert!(!broken.is_consistent());
    // A node with such an identity still tracks peers; only announcing needs
    // a consistent keypair.
    let mut a = NetworkManager::new(broken);
    assert_eq!(a.handle_ble_event(BleEvent::Discovered { id: 1, name: "p".to_string() }).len(), 2);
}

#[test]
fn header_overrun_names_the_inputs_the_decoder_refuses() {
    let mut thirteen = vec![0u8; 13];
    thirteen[0] = 1;
    thirteen[1] = 0x02;
    assert!(header_overrun(&thirteen));
    thirteen[1] = 0x05;
    assert!(!header_overrun(&thirteen));
    assert!(BitchatPacket::from_bytes(&thirteen).is_err());
    thirteen[0] = 2;
    thirteen[1] = 0x02;
    assert!(!header_overrun(&thirteen));
    assert!(BitchatPacket::from_bytes(&thirteen).is_err());
    assert!(!header_overrun(&[1, 2, 0, 0, 0, 0, 0, 0, 0, 0, 0, 0, 0, 0]));
}

#[test]
fn the_longest_text_sure_to_fit_is_sent() {
    let (mut a, _b) = connected_pair();
    let mut text = String::new();
    let mut x: u64 = 7;
    while text.len() < MAX_TEXT_SURE_TO_FIT {
        x = x.wrapping_mul(6364136223846793005).wrapping_add(1442695040888963407);
        text.push(char::from(b'!' + ((x >> 40) % 90) as u8));
    }
    assert_eq!(text.len(), MAX_TEXT_SURE_TO_FIT);
    let parts = sends(&a.handle_ui_command(UiCommand::SendMessage(text)));
    assert!(parts.len() > 1);
    let mut joined = Vec::new();
    for (_, bytes) in &parts {
        let packet = BitchatPacket::from_bytes(bytes).unwrap();
        joined.extend_from_slice(&FragmentPacket::from_bytes(&packet.payload).unwrap().data);
    }
    let outer = BitchatPacket::from_bytes(&joined).unwrap();
    assert!(outer.payload.len() <= 65535);
}

#[test]
fn handshake_step_outcomes_decide_the_peer_state() {
    let sender = [7u8; 8];

    // An error drops the peer silently.
    let (session, _) = NoiseSession::new_initiator().unwrap();
    let mut acts = Vec::new();
    let st = after_handshake_step(3, session, Err(NoiseError::WrongState), sender, &mut acts);
    assert!(matches!(st, PeerState::Discovered));
    assert!(acts.is_empty());

    // A reply is sent back as a handshake packet; the session is still
    // handshaking, so the peer is too.
    let (session, _) = NoiseSession::new_initiator().unwrap();
    let mut acts = Vec::new();
    let st = after_handshake_step(3, session, Ok(Some(vec![1, 2, 3])), sender, &mut acts);
    assert!(matches!(st, PeerState::Handshaking { .. }));
    assert_eq!(acts.len(), 1);
    match &acts[0] {
        NetworkAction::Ble(BleCommand::SendData { receiver, data }) => {
            assert_eq!(*receiver, 3);
            let p = BitchatPacket::from_bytes(data).unwrap();
            assert_eq!(p.packet_type, MessageType::NoiseHandshake);
            assert_eq!(p.payload, vec![1, 2, 3]);
            assert_eq!(p.sender_id, sender);
            assert_eq!(p.ttl, 1);
        }
        other => panic!("unexpected {:?}", other),
    }

    // A completed step connects the peer and reports it.
    let (mut i, m1) = NoiseSession::new_initiator().unwrap();
    let mut r = NoiseSession::new_responder().unwrap();
    let m2 = r.handshake_read(&m1).unwrap().unwrap();
    let m3 = i.handshake_read(&m2).unwrap().unwrap();
    let done = r.handshake_read(&m3).unwrap();
    assert!(done.is_none());
    let mut acts = Vec::new();
    let st = after_handshake_step(4, r, Ok(None), sender, &mut acts);
    assert!(matches!(st, PeerState::Connected { .. }));
    assert_eq!(acts.len(), 1);
    assert!(matches!(acts[0], NetworkAction::Event(NetworkEvent::PeerConnected(4))));

    // A responder that replied keeps handshaking without reporting anything.
    let responder = NoiseSession::new_responder().unwrap();
    let mut acts = Vec::new();
    let st = after_responder_step(5, responder, Ok(Some(vec![9; 96])), sender, &mut acts);
    assert!(matches!(st, PeerState::Handshaking { .. }));
    assert_eq!(acts.len(), 1);
}

#[test]
fn a_sixty_thousand_byte_text_is_sent_when_it_fits_one_noise_message() {
    let (mut a, _b) = connected_pair();
    let text = "a".repeat(60000);
    let (to, bytes) = single_send(&a.handle_ui_command(UiCommand::SendMessage(text)));
    assert_eq!(to, B);
    let outer = BitchatPacket::from_bytes(&bytes).unwrap();
    assert_eq!(outer.packet_type, MessageType::NoiseEncrypted);
    assert!(outer.payload.len() <= 65535);
}

#[test]
fn a_tampered_encrypted_message_is_dropped_and_the_peer_stays_connected() {
    let (mut a, mut b) = connected_pair();
    let (_, bytes) = single_send(&a.handle_ui_command(UiCommand::SendMessage("genuine".to_string())));
    let mut forged = BitchatPacket::from_bytes(&bytes).unwrap();
    let last = forged.payload.len() - 1;
    forged.payload[last] ^= 1;
    assert!(deliver(&mut b, A, forged.to_bytes()).is_empty());
    // A payload that is not the sealing of anything is dropped as well.
    forged.payload = vec![0u8; 40];
    assert!(deliver(&mut b, A, forged.to_bytes()).is_empty());
    // The session is still in step: the genuine message is delivered.
    let acts = deliver(&mut b, A, bytes);
    assert_eq!(acts.len(), 1);
    assert!(matches!(&acts[0], NetworkAction::Event(NetworkEvent::NewMessage { content, .. }) if content == "genuine"));
}

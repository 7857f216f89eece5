use bitchat_rust::noise::{NoiseError, NoiseSession};

#[test]
fn test_full_handshake_and_transport() {
    // 1. Initiator starts
    let (mut initiator, init_msg) = NoiseSession::new_initiator().unwrap();

    // 2. Responder receives the first message
    let mut responder = NoiseSession::new_responder().unwrap();
    let resp_msg = responder.handshake_read(&init_msg).unwrap().unwrap();

    // 3. Initiator receives the response
    let final_msg = initiator.handshake_read(&resp_msg).unwrap().unwrap();

    // 4. Responder receives the final message
    let no_reply = responder.handshake_read(&final_msg).unwrap();
    assert!(no_reply.is_none());

    // 5. Both should now be in transport mode
    assert!(initiator.is_transport_mode());
    assert!(responder.is_transport_mode());

    // 6. Test transport messages
    let plaintext1 = b"hello from initiator";
    let ciphertext1 = initiator.encrypt(plaintext1).unwrap();
    let decrypted1 = responder.decrypt(&ciphertext1).unwrap();
    assert_eq!(plaintext1, decrypted1.as_slice());

    let plaintext2 = b"hello from responder";
    let ciphertext2 = responder.encrypt(plaintext2).unwrap();
    let decrypted2 = initiator.decrypt(&ciphertext2).unwrap();
    assert_eq!(plaintext2, decrypted2.as_slice());
}

#[test]
fn handshake_sessions_refuse_transport_messages() {
    let (mut initiator, _) = NoiseSession::new_initiator().unwrap();
    assert!(matches!(initiator.encrypt(b"x"), Err(NoiseError::WrongState)));
    assert!(matches!(initiator.decrypt(&[0; 20]), Err(NoiseError::WrongState)));
    assert!(!initiator.is_transport_mode());
}

#[test]
fn ciphertext_is_plaintext_plus_tag_and_transport_ignores_handshake() {
    let (mut a, m1) = NoiseSession::new_initiator().unwrap();
    let mut b = NoiseSession::new_responder().unwrap();
    let m2 = b.handshake_read(&m1).unwrap().unwrap();
    let m3 = a.handshake_read(&m2).unwrap().unwrap();
    assert!(b.handshake_read(&m3).unwrap().is_none());
    let c = a.encrypt(&[1, 2, 3]).unwrap();
    assert_eq!(c.len(), 3 + 16);
    assert!(a.handshake_read(&[1, 2, 3]).unwrap().is_none());
    assert!(a.is_transport_mode());
}

#[test]
fn failed_handshake_step_breaks_the_session() {
    let mut responder = NoiseSession::new_responder().unwrap();
    assert!(matches!(responder.handshake_read(&[1, 2, 3]), Err(NoiseError::Snow(_))));
    assert!(matches!(responder.handshake_read(&[1, 2, 3]), Err(NoiseError::WrongState)));
}

#[test]
fn new_sessions_start_handshaking_and_the_first_message_is_an_ephemeral_key() {
    let (initiator, first) = NoiseSession::new_initiator().unwrap();
    assert!(!initiator.is_transport_mode());
    assert_eq!(first.len(), 32);
    let responder = NoiseSession::new_responder().unwrap();
    assert!(!responder.is_transport_mode());
}

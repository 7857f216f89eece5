use bitchat_rust::chat::ChatState;
use bitchat_rust::network::{NetworkEvent, UiCommand};

fn status_of(state: &ChatState, id: u64) -> Option<(String, String)> {
    state.peers.get(&id).map(|p| (p.name.clone(), p.status.clone()))
}

#[test]
fn window_opens_with_a_welcome_line() {
    let state = ChatState::new(1000);
    assert_eq!(state.message_history.len(), 1);
    let line = &state.message_history[0];
    assert!(!line.is_self);
    assert_eq!(line.sender, "System");
    assert_eq!(line.content, "Welcome to BitChat!");
    assert_eq!(line.timestamp, 1000);
    assert_eq!(state.status, "Initializing...");
    assert_eq!(state.username, "user");
    assert!(state.input_text.is_empty());
    assert!(state.peers.is_empty());
    assert!(!state.show_user_list);
}

#[test]
fn peers_are_listed_and_follow_their_connection() {
    let mut state = ChatState::new(0);
    state.apply_event(NetworkEvent::PeerConnected(4));
    assert!(state.peers.is_empty());
    state.apply_event(NetworkEvent::PeerDiscovered { id: 4, name: "dana".to_string() });
    assert_eq!(status_of(&state, 4), Some(("dana".to_string(), "Discovered".to_string())));
    state.apply_event(NetworkEvent::PeerDiscovered { id: 4, name: "other".to_string() });
    assert_eq!(status_of(&state, 4), Some(("dana".to_string(), "Discovered".to_string())));
    state.apply_event(NetworkEvent::PeerConnected(4));
    assert_eq!(status_of(&state, 4), Some(("dana".to_string(), "Connected".to_string())));
    state.apply_event(NetworkEvent::PeerDisconnected(4));
    assert_eq!(status_of(&state, 4), Some(("dana".to_string(), "Disconnected".to_string())));
    assert_eq!(state.peers.len(), 1);
}

#[test]
fn messages_and_status_updates_are_shown() {
    let mut state = ChatState::new(0);
    state.apply_event(NetworkEvent::NewMessage {
        sender_id: 9,
        sender_name: "eve".to_string(),
        content: "hey".to_string(),
        timestamp: 1_700_000_000_000,
    });
    assert_eq!(state.message_history.len(), 2);
    let line = &state.message_history[1];
    assert!(!line.is_self);
    assert_eq!(line.sender, "eve");
    assert_eq!(line.content, "hey");
    assert_eq!(line.timestamp, 1_700_000_000_000);
    state.apply_event(NetworkEvent::StatusUpdate("scanning".to_string()));
    assert_eq!(state.status, "scanning");
}

#[test]
fn sending_a_line_queues_a_broadcast_and_clears_the_input() {
    let mut state = ChatState::new(0);
    assert!(state.send_message(5).is_none());
    assert_eq!(state.message_history.len(), 1);

    state.input_text = "hello all".to_string();
    state.username = "sam".to_string();
    match state.send_message(42) {
        Some(UiCommand::SendMessage(text)) => assert_eq!(text, "hello all"),
        other => panic!("unexpected {:?}", other),
    }
    assert!(state.input_text.is_empty());
    let line = state.message_history.last().unwrap();
    assert!(line.is_self);
    assert_eq!(line.sender, "sam");
    assert_eq!(line.content, "hello all");
    assert_eq!(line.timestamp, 42);
}

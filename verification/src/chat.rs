//! What the chat window shows: the conversation, the peers with their
//! statuses, and the text being typed, as the node's events and the user's
//! input change them. Drawing is left to the caller.

use vstd::prelude::*;
use std::collections::HashMap;
use crate::network::{NetworkEvent, PeerMapKey, UiCommand};

verus! {

broadcast use vstd::std_specs::hash::group_hash_axioms;

/// A peer as the window lists it.
pub struct PeerInfo {
    pub name: String,
    pub status: String,
}

/// One line of the conversation. `timestamp` is in milliseconds since the Unix
/// epoch.
pub struct ChatMessage {
    pub is_self: bool,
    pub sender: String,
    pub content: String,
    pub timestamp: u64,
}

/// A line of the conversation as plain values.
pub struct ChatMessageView {
    pub is_self: bool,
    pub sender: Seq<char>,
    pub content: Seq<char>,
    pub timestamp: u64,
}

impl View for ChatMessage {
    type V = ChatMessageView;

    open spec fn view(&self) -> ChatMessageView {
        ChatMessageView {
            is_self: self.is_self,
            sender: self.sender@,
            content: self.content@,
            timestamp: self.timestamp,
        }
    }
}

/// The peers as (name, status) pairs.
pub open spec fn peers_view(m: Map<PeerMapKey, PeerInfo>) -> Map<PeerMapKey, (Seq<char>, Seq<char>)> {
    m.map_values(|p: PeerInfo| (p.name@, p.status@))
}

/// The state behind the chat window.
pub struct ChatState {
    pub message_history: Vec<ChatMessage>,
    pub input_text: String,
    pub peers: HashMap<PeerMapKey, PeerInfo>,
    pub status: String,
    pub show_user_list: bool,
    pub username: String,
}

impl ChatState {
    /// The conversation as plain values.
    pub open spec fn history_view(&self) -> Seq<ChatMessageView> {
        self.message_history@.map_values(|m: ChatMessage| m@)
    }
}

/// The peers after the peer `id` gets status `status`; unknown peers are left
/// out.
pub open spec fn with_status(
    peers: Map<PeerMapKey, (Seq<char>, Seq<char>)>,
    id: PeerMapKey,
    status: Seq<char>,
) -> Map<PeerMapKey, (Seq<char>, Seq<char>)> {
    if peers.contains_key(id) {
        peers.insert(id, (peers[id].0, status))
    } else {
        peers
    }
}

/// What an event from the node does to the window: a new peer is listed as
/// discovered (a known one is kept as it is), a connection or disconnection
/// updates a listed peer's status, a message is added to the conversation, and
/// a status text replaces the current one. The typed text, the user name and
/// the user list's visibility stay.
pub open spec fn chat_event_effect(old: ChatState, new: ChatState, event: NetworkEvent) -> bool {
    let pv = peers_view(old.peers@);
    &&& new.input_text@ == old.input_text@
    &&& new.username@ == old.username@
    &&& new.show_user_list == old.show_user_list
    &&& match event {
        NetworkEvent::PeerDiscovered { id, name } => {
            &&& new.history_view() == old.history_view()
            &&& new.status@ == old.status@
            &&& peers_view(new.peers@) == if pv.contains_key(id) {
                pv
            } else {
                pv.insert(id, (name@, "Discovered"@))
            }
        },
        NetworkEvent::PeerConnected(id) => {
            &&& new.history_view() == old.history_view()
            &&& new.status@ == old.status@
            &&& peers_view(new.peers@) == with_status(pv, id, "Connected"@)
        },
        NetworkEvent::PeerDisconnected(id) => {
            &&& new.history_view() == old.history_view()
            &&& new.status@ == old.status@
            &&& peers_view(new.peers@) == with_status(pv, id, "Disconnected"@)
        },
        NetworkEvent::NewMessage { sender_id, sender_name, content, timestamp } => {
            &&& new.history_view() == old.history_view().push(
                ChatMessageView { is_self: false, sender: sender_name@, content: content@, timestamp },
            )
            &&& new.status@ == old.status@
            &&& peers_view(new.peers@) == pv
        },
        NetworkEvent::StatusUpdate(s) => {
            &&& new.history_view() == old.history_view()
            &&& new.status@ == s@
            &&& peers_view(new.peers@) == pv
        },
    }
}

impl ChatState {
    /// The window as it opens at time `now`: a welcome line, no peers, an
    /// empty input line, the user list hidden, and the user called "user".
    pub fn new(now: u64) -> (s: ChatState)
        ensures
            s.history_view() == seq![
                ChatMessageView {
                    is_self: false,
                    sender: "System"@,
                    content: "Welcome to BitChat!"@,
                    timestamp: now,
                },
            ],
            s.input_text@ == Seq::<char>::empty(),
            peers_view(s.peers@) == Map::<PeerMapKey, (Seq<char>, Seq<char>)>::empty(),
            s.status@ == "Initializing..."@,
            !s.show_user_list,
            s.username@ == "user"@,
    {
        let mut message_history: Vec<ChatMessage> = Vec::new();
        message_history.push(
            ChatMessage {
                is_self: false,
                sender: String::from_str("System"),
                content: String::from_str("Welcome to BitChat!"),
                timestamp: now,
            },
        );
        let s = ChatState {
            message_history,
            input_text: String::new(),
            peers: HashMap::new(),
            status: String::from_str("Initializing..."),
            show_user_list: false,
            username: String::from_str("user"),
        };
        assert(s.history_view() =~= seq![s.message_history@[0]@]);
        assert(peers_view(s.peers@) =~= Map::<PeerMapKey, (Seq<char>, Seq<char>)>::empty());
        s
    }

    /// Lists or updates peer `id` with `status`.
    fn set_status(&mut self, id: PeerMapKey, status: &str)
        ensures
            final(self).message_history@ == old(self).message_history@,
            final(self).input_text == old(self).input_text,
            final(self).username == old(self).username,
            final(self).show_user_list == old(self).show_user_list,
            final(self).status == old(self).status,
            peers_view(final(self).peers@) == with_status(peers_view(old(self).peers@), id, status@),
    {
        let ghost pv = peers_view(self.peers@);
        let name = match self.peers.get(&id) {
            Some(p) => Some(p.name.clone()),
            None => None,
        };
        match name {
            Some(name) => {
                self.peers.insert(id, PeerInfo { name, status: String::from_str(status) });
                assert(peers_view(self.peers@) =~= pv.insert(id, (pv[id].0, status@)));
            },
            None => {},
        }
    }

    /// Takes in one event from the node.
    pub fn apply_event(&mut self, event: NetworkEvent)
        ensures
            chat_event_effect(*old(self), *final(self), event),
    {
        let ghost pv = peers_view(self.peers@);
        let ghost history = self.history_view();
        match event {
            NetworkEvent::PeerDiscovered { id, name } => {
                if !self.peers.contains_key(&id) {
                    let ghost n = name@;
                    self.peers.insert(id, PeerInfo { name, status: String::from_str("Discovered") });
                    assert(peers_view(self.peers@) =~= pv.insert(id, (n, "Discovered"@)));
                }
            },
            NetworkEvent::PeerConnected(id) => self.set_status(id, "Connected"),
            NetworkEvent::PeerDisconnected(id) => self.set_status(id, "Disconnected"),
            NetworkEvent::NewMessage { sender_id: _, sender_name, content, timestamp } => {
                let ghost (sn, c) = (sender_name@, content@);
                self.message_history.push(
                    ChatMessage { is_self: false, sender: sender_name, content, timestamp },
                );
                assert(self.history_view() =~= history.push(
                    ChatMessageView { is_self: false, sender: sn, content: c, timestamp },
                ));
            },
            NetworkEvent::StatusUpdate(status) => {
                self.status = status;
            },
        }
    }

    /// Sends the typed line, if there is one: it becomes a broadcast request,
    /// is added to the conversation under the user's name at time `now`, and
    /// the input line is cleared. An empty line does nothing.
    pub fn send_message(&mut self, now: u64) -> (cmd: Option<UiCommand>)
        ensures
            old(self).input_text@.len() == 0 ==> cmd is None && final(self).history_view() == old(
                self,
            ).history_view() && final(self).input_text@ == old(self).input_text@,
            old(self).input_text@.len() > 0 ==> {
                &&& cmd matches Some(UiCommand::SendMessage(t)) && t@ == old(self).input_text@
                &&& final(self).history_view() == old(self).history_view().push(
                    ChatMessageView {
                        is_self: true,
                        sender: old(self).username@,
                        content: old(self).input_text@,
                        timestamp: now,
                    },
                )
                &&& final(self).input_text@ == Seq::<char>::empty()
            },
            final(self).username@ == old(self).username@,
            final(self).status@ == old(self).status@,
            final(self).show_user_list == old(self).show_user_list,
            peers_view(final(self).peers@) == peers_view(old(self).peers@),
    {
        if self.input_text.as_str().is_empty() {
            return None;
        }
        let ghost history = self.history_view();
        let text = self.input_text.clone();
        let line = ChatMessage {
            is_self: true,
            sender: self.username.clone(),
            content: self.input_text.clone(),
            timestamp: now,
        };
        self.message_history.push(line);
        assert(self.history_view() =~= history.push(self.message_history@.last()@));
        self.input_text = String::new();
        Some(UiCommand::SendMessage(text))
    }
}

} // verus!

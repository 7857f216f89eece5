//! The peer state machine: what the node does with each radio event, each
//! packet a peer sends and each user request. Every handler returns the radio
//! commands and user-interface events to emit, in order; the caller performs
//! them.

use vstd::prelude::*;
use sha2::Digest;
use crate::bytes::copy_range;
use crate::compression;
use crate::identity::{self, UserIdentity, verifying_key_of};
use crate::ids::{self, new_uuid_v4};
use crate::noise::{NoiseError, NoiseSession};
use crate::protocol::{
    self, AnnouncementPacket, BitchatMessage, BitchatPacket, FragmentPacket, MessageFlags,
    MessageType, PacketFlags, PacketView,
};

verus! {

/// Packets longer than this are sent in fragments.
pub const MAX_PAYLOAD_SIZE: usize = 480;

/// How much of a packet one fragment carries (room is left for its 20-byte
/// header).
pub const FRAGMENT_CHUNK_SIZE: usize = 460;

/// How a peer is known to this node; the caller maps its radio's peer handles
/// to these numbers.
pub type PeerMapKey = u64;

/// What the user interface asks the node to do.
#[derive(Debug)]
pub enum UiCommand {
    SendMessage(String),
    SendPrivateMessage { recipient: PeerMapKey, text: String },
}

/// What the node tells the user interface.
#[derive(Debug, Clone)]
pub enum NetworkEvent {
    PeerDiscovered { id: PeerMapKey, name: String },
    PeerConnected(PeerMapKey),
    PeerDisconnected(PeerMapKey),
    NewMessage { sender_id: PeerMapKey, sender_name: String, content: String, timestamp: u64 },
    StatusUpdate(String),
}

/// What the node asks the radio to do.
#[derive(Debug)]
pub enum BleCommand {
    Connect(PeerMapKey),
    Disconnect(PeerMapKey),
    SendData { receiver: PeerMapKey, data: Vec<u8> },
}

/// What the radio reports.
#[derive(Debug)]
pub enum BleEvent {
    Discovered { id: PeerMapKey, name: String },
    ServicesDiscovered(PeerMapKey),
    Connected(PeerMapKey),
    Disconnected(PeerMapKey),
    DataReceived { sender: PeerMapKey, data: Vec<u8> },
}

/// One thing for the caller to do: a radio command or an event for the user
/// interface.
#[derive(Debug)]
pub enum NetworkAction {
    Ble(BleCommand),
    Event(NetworkEvent),
}

/// An action as plain values.
pub enum ActionView {
    Connect(PeerMapKey),
    Disconnect(PeerMapKey),
    SendData(PeerMapKey, Seq<u8>),
    PeerDiscovered(PeerMapKey, Seq<char>),
    PeerConnected(PeerMapKey),
    PeerDisconnected(PeerMapKey),
    NewMessage(PeerMapKey, Seq<char>, Seq<char>, u64),
    StatusUpdate(Seq<char>),
}

impl View for NetworkAction {
    type V = ActionView;

    open spec fn view(&self) -> ActionView {
        match self {
            NetworkAction::Ble(BleCommand::Connect(id)) => ActionView::Connect(*id),
            NetworkAction::Ble(BleCommand::Disconnect(id)) => ActionView::Disconnect(*id),
            NetworkAction::Ble(BleCommand::SendData { receiver, data }) => ActionView::SendData(
                *receiver,
                data@,
            ),
            NetworkAction::Event(NetworkEvent::PeerDiscovered { id, name }) => ActionView::PeerDiscovered(*id, name@),
            NetworkAction::Event(NetworkEvent::PeerConnected(id)) => ActionView::PeerConnected(*id),
            NetworkAction::Event(NetworkEvent::PeerDisconnected(id)) => ActionView::PeerDisconnected(*id),
            NetworkAction::Event(
                NetworkEvent::NewMessage { sender_id, sender_name, content, timestamp },
            ) => ActionView::NewMessage(*sender_id, sender_name@, content@, *timestamp),
            NetworkAction::Event(NetworkEvent::StatusUpdate(s)) => ActionView::StatusUpdate(s@),
        }
    }
}

/// The views of a list of actions.
pub open spec fn actions_view(a: Seq<NetworkAction>) -> Seq<ActionView> {
    a.map_values(|x: NetworkAction| x@)
}

// ---------------------------------------------------------------------------
// Outside calls
// ---------------------------------------------------------------------------

/// The SHA-256 digest of `data`.
pub uninterp spec fn spec_sha256(data: Seq<u8>) -> Seq<u8>;

/// Trusted: `sha2::Sha256::digest`. The digest is named by `spec_sha256`; it
/// is 32 bytes.
#[verifier::external_body]
fn sha256(data: &[u8]) -> (d: [u8; 32])
    ensures
        d@ == spec_sha256(data@),
{
    sha2::Sha256::digest(data).into()
}

#[verifier::external_type_specification]
#[verifier::external_body]
pub struct ExSystemTime(std::time::SystemTime);

/// Trusted: `std::time::SystemTime::now`. The time is not stated.
#[verifier::external_body]
fn system_now() -> (t: std::time::SystemTime) {
    std::time::SystemTime::now()
}

/// Trusted: `std::time::SystemTime::duration_since` the Unix epoch, `None` for
/// a time before it. Nothing is stated of the duration.
#[verifier::external_body]
fn since_unix_epoch(t: &std::time::SystemTime) -> (d: Option<core::time::Duration>) {
    t.duration_since(std::time::UNIX_EPOCH).ok()
}

/// Trusted: `core::time::Duration::as_millis`, the whole milliseconds. Nothing
/// is stated of the value.
#[verifier::external_body]
fn whole_millis(d: &core::time::Duration) -> (m: u128) {
    d.as_millis()
}

/// The current time in whole milliseconds since the Unix epoch: 0 for a clock
/// set before it, truncated to 64 bits.
fn now_millis() -> (t: u64) {
    match since_unix_epoch(&system_now()) {
        Some(d) => whole_millis(&d) as u64,
        None => 0,
    }
}

// ---------------------------------------------------------------------------
// Identifiers
// ---------------------------------------------------------------------------

/// A peer's bitchat id: the first 8 bytes of the SHA-256 digest of its Noise
/// public key.
pub open spec fn bitchat_id_of(public_key: Seq<u8>) -> Seq<u8> {
    spec_sha256(public_key).take(8)
}

/// Derives a bitchat id from a Noise public key.
pub fn derive_bitchat_id(public_key: &[u8]) -> (id: [u8; 8])
    ensures
        id@ == bitchat_id_of(public_key@),
{
    let digest = sha256(public_key);
    let id = protocol::array8_at(digest.as_slice(), 0);
    assert(digest@.subrange(0, 8) =~= spec_sha256(public_key@).take(8));
    id
}

// ---------------------------------------------------------------------------
// Fragmentation
// ---------------------------------------------------------------------------

/// The number of fragments a packet of `n` bytes is cut into.
pub open spec fn chunk_count(n: int) -> int {
    (n + 459) / 460
}

/// Fragment `i` of `bytes`: at most 460 bytes from `460 * i` on.
pub open spec fn chunk_of(bytes: Seq<u8>, i: int) -> Seq<u8> {
    let end = if (i + 1) * 460 < bytes.len() {
        (i + 1) * 460
    } else {
        bytes.len() as int
    };
    bytes.subrange(i * 460, end)
}

/// A packet this node originates that is not relayed: version 1, TTL 1, no
/// flags, no recipient and no signature.
pub open spec fn control_packet(t: MessageType, payload: Seq<u8>, ts: u64, sender: Seq<u8>) -> PacketView {
    PacketView {
        version: 1,
        packet_type: t,
        ttl: 1,
        timestamp: ts,
        flags: 0,
        sender_id: sender,
        recipient_id: None,
        payload,
        signature: None,
    }
}

/// The packet that carries fragment `i` of `count` of message `fid`.
pub open spec fn fragment_packet(
    fid: Seq<u8>,
    i: int,
    count: u16,
    chunk: Seq<u8>,
    ts: u64,
    sender: Seq<u8>,
) -> PacketView {
    control_packet(
        MessageType::Fragment,
        protocol::fragment_bytes(
            protocol::FragmentView { id: fid, index: i as u16, count, data: chunk },
        ),
        ts,
        sender,
    )
}

/// `acts` is what sending `bytes` to `receiver` emits: the bytes as they are
/// when they fit in one radio write, else one fragment packet per 460-byte
/// chunk, all under one fresh fragment id, each stamped with a time.
pub open spec fn fragmented_send(
    bytes: Seq<u8>,
    receiver: PeerMapKey,
    sender: Seq<u8>,
    acts: Seq<ActionView>,
) -> bool {
    if bytes.len() <= 480 {
        acts == seq![ActionView::SendData(receiver, bytes)]
    } else {
        let n = chunk_count(bytes.len() as int);
        &&& acts.len() == n
        &&& exists|fid: Seq<u8>, stamps: Seq<u64>|
            fragments_sent(bytes, receiver, sender, acts, fid, stamps)
    }
}

/// `acts` is fragment `i` of `bytes`, for each `i`, under id `fid` and with the
/// times `stamps`.
pub open spec fn fragments_sent(
    bytes: Seq<u8>,
    receiver: PeerMapKey,
    sender: Seq<u8>,
    acts: Seq<ActionView>,
    fid: Seq<u8>,
    stamps: Seq<u64>,
) -> bool {
    let n = chunk_count(bytes.len() as int);
    &&& fid.len() == 16
    &&& stamps.len() == acts.len()
    &&& forall|i: int|
        #![trigger acts[i]]
        0 <= i < acts.len() ==> acts[i] == ActionView::SendData(
            receiver,
            protocol::packet_bytes(
                fragment_packet(fid, i, n as u16, chunk_of(bytes, i), stamps[i], sender),
            ),
        )
}

proof fn lemma_chunk_len(bytes: Seq<u8>, i: int)
    requires
        0 <= i < chunk_count(bytes.len() as int),
    ensures
        0 < chunk_of(bytes, i).len() <= 460,
        i * 460 < bytes.len(),
{
}

/// The first `k` chunks of `bytes`, joined in index order.
pub open spec fn join_chunks(bytes: Seq<u8>, k: int) -> Seq<u8>
    decreases k,
{
    if k <= 0 {
        Seq::empty()
    } else {
        join_chunks(bytes, k - 1) + chunk_of(bytes, k - 1)
    }
}

proof fn lemma_join_prefix(bytes: Seq<u8>, k: int)
    requires
        0 <= k <= chunk_count(bytes.len() as int),
    ensures
        join_chunks(bytes, k) == bytes.take(if k * 460 < bytes.len() { k * 460 } else { bytes.len() as int }),
    decreases k,
{
    if k > 0 {
        lemma_join_prefix(bytes, k - 1);
        lemma_chunk_len(bytes, k - 1);
        let a = (k - 1) * 460;
        let b = if k * 460 < bytes.len() { k * 460 } else { bytes.len() as int };
        assert(bytes.take(a) + bytes.subrange(a, b) =~= bytes.take(b));
    } else {
        assert(bytes.take(0) =~= Seq::<u8>::empty());
    }
}

/// Fragmentation loses nothing: the chunks of a packet, joined in index order,
/// are the packet's bytes.
pub proof fn lemma_fragments_join(bytes: Seq<u8>)
    ensures
        join_chunks(bytes, chunk_count(bytes.len() as int)) == bytes,
{
    let n = chunk_count(bytes.len() as int);
    lemma_join_prefix(bytes, n);
    assert(n * 460 >= bytes.len());
    assert(bytes.take(bytes.len() as int) =~= bytes);
}

/// Every fragment packet this node sends decodes as a fragment packet whose
/// payload decodes to the fragment's id, index, count and chunk.
pub proof fn lemma_fragment_packet_decodes(
    fid: Seq<u8>,
    i: int,
    count: u16,
    chunk: Seq<u8>,
    ts: u64,
    sender: Seq<u8>,
)
    requires
        fid.len() == 16,
        sender.len() == 8,
        chunk.len() <= FRAGMENT_CHUNK_SIZE,
    ensures
        protocol::parse_packet(protocol::packet_bytes(fragment_packet(fid, i, count, chunk, ts, sender)))
            == Ok::<PacketView, protocol::PacketError>(fragment_packet(fid, i, count, chunk, ts, sender)),
        protocol::parse_fragment(fragment_packet(fid, i, count, chunk, ts, sender).payload) == Ok::<
            protocol::FragmentView,
            Seq<char>,
        >(protocol::FragmentView { id: fid, index: i as u16, count, data: chunk }),
{
    let f = protocol::FragmentView { id: fid, index: i as u16, count, data: chunk };
    let p = fragment_packet(fid, i, count, chunk, ts, sender);
    assert(protocol::fragment_bytes(f).len() == 20 + chunk.len());
    assert(0u8 & 1u8 == 0u8 && 0u8 & 2u8 == 0u8) by (bit_vector);
    assert(protocol::packet_wf(p));
    protocol::lemma_packet_roundtrip(p, Seq::empty());
    assert(protocol::packet_bytes(p) + Seq::<u8>::empty() =~= protocol::packet_bytes(p));
    protocol::lemma_fragment_roundtrip(f);
}

// ---------------------------------------------------------------------------
// Node state
// ---------------------------------------------------------------------------

/// Where the session with a peer stands.
pub enum PeerState {
    Discovered,
    Handshaking { noise: NoiseSession },
    Connected { noise: NoiseSession },
    /// Left behind when handling a packet stopped half-way.
    Transitioning,
}

/// A handshaking peer's session is usable; a connected peer's session is in
/// transport mode; both were set up for this library's Noise protocol.
pub open spec fn state_wf(s: PeerState) -> bool {
    match s {
        PeerState::Handshaking { noise } => !noise.is_broken() && noise.ours(),
        PeerState::Connected { noise } => noise.in_transport() && noise.ours(),
        _ => true,
    }
}

/// A peer the radio has found.
pub struct Peer {
    pub id: PeerMapKey,
    pub name: String,
    pub state: PeerState,
    pub bitchat_id: Option<[u8; 8]>,
    pub noise_public_key: Option<Vec<u8>>,
    pub signing_public_key: Option<Vec<u8>>,
}

/// What is known of a peer apart from its session.
pub struct PeerInfo {
    pub id: PeerMapKey,
    pub name: Seq<char>,
    pub bitchat_id: Option<Seq<u8>>,
    pub noise_public_key: Option<Seq<u8>>,
    pub signing_public_key: Option<Seq<u8>>,
}

/// An optional byte vector as plain values.
pub open spec fn opt_vec_view(o: Option<Vec<u8>>) -> Option<Seq<u8>> {
    match o {
        Some(v) => Some(v@),
        None => None,
    }
}

impl Peer {
    pub open spec fn info(&self) -> PeerInfo {
        PeerInfo {
            id: self.id,
            name: self.name@,
            bitchat_id: protocol::opt_array8(self.bitchat_id),
            noise_public_key: opt_vec_view(self.noise_public_key),
            signing_public_key: opt_vec_view(self.signing_public_key),
        }
    }
}

/// A peer's details after an announcement payload: replaced by what it
/// announces when it decodes, unchanged otherwise.
pub open spec fn announce_update(info: PeerInfo, payload: Seq<u8>) -> PeerInfo {
    match protocol::parse_announce(payload) {
        Ok(a) => PeerInfo {
            id: info.id,
            name: a.nickname,
            bitchat_id: Some(bitchat_id_of(a.noise_public_key)),
            noise_public_key: Some(a.noise_public_key),
            signing_public_key: Some(a.signing_public_key),
        },
        Err(_) => info,
    }
}

/// The fragments received so far of one message.
pub struct ReassemblyBuffer {
    pub id: [u8; 16],
    pub chunks: Vec<(u16, Vec<u8>)>,
}

/// A reassembly buffer as plain values: the message id and the (index, data)
/// pairs received.
pub open spec fn buffer_view(b: ReassemblyBuffer) -> (Seq<u8>, Seq<(u16, Seq<u8>)>) {
    (b.id@, b.chunks@.map_values(|c: (u16, Vec<u8>)| (c.0, c.1@)))
}

/// The reassembly buffers as plain values.
pub open spec fn buffers_view(bs: Seq<ReassemblyBuffer>) -> Seq<(Seq<u8>, Seq<(u16, Seq<u8>)>)> {
    bs.map_values(|b: ReassemblyBuffer| buffer_view(b))
}

/// The delivered message ids as plain values.
pub open spec fn seen_view(s: Seq<[u8; 16]>) -> Seq<Seq<u8>> {
    s.map_values(|a: [u8; 16]| a@)
}

/// The node: its identity, the peers it knows, the ids of the messages it has
/// delivered and the fragments it is reassembling.
pub struct NetworkManager {
    identity: UserIdentity,
    peers: Vec<Peer>,
    seen_messages: Vec<[u8; 16]>,
    reassembly_buffers: Vec<ReassemblyBuffer>,
}

/// No two peers share an id.
pub open spec fn peers_distinct(ps: Seq<Peer>) -> bool {
    forall|i: int, j: int| 0 <= i < j < ps.len() ==> ps[i].id != ps[j].id
}

/// No two chunks share an index.
pub open spec fn chunks_distinct(cs: Seq<(u16, Seq<u8>)>) -> bool {
    forall|i: int, j: int| 0 <= i < j < cs.len() ==> cs[i].0 != cs[j].0
}

/// No two buffers share an id, and each holds one chunk per index.
pub open spec fn buffers_distinct(bs: Seq<(Seq<u8>, Seq<(u16, Seq<u8>)>)>) -> bool {
    &&& forall|i: int, j: int| 0 <= i < j < bs.len() ==> bs[i].0 != bs[j].0
    &&& forall|i: int| 0 <= i < bs.len() ==> chunks_distinct(#[trigger] bs[i].1)
}

impl NetworkManager {
    /// Peers have distinct ids, each session is in the mode its peer's state
    /// says, buffers are keyed uniquely and no message id was delivered twice.
    pub closed spec fn wf(&self) -> bool {
        &&& peers_distinct(self.peers@)
        &&& forall|i: int| 0 <= i < self.peers@.len() ==> state_wf(#[trigger] self.peers@[i].state)
        &&& buffers_distinct(buffers_view(self.reassembly_buffers@))
        &&& seen_view(self.seen_messages@).no_duplicates()
    }

    /// The node's identity.
    pub closed spec fn spec_identity(&self) -> UserIdentity {
        self.identity
    }

    /// The peers the node knows, in the order it found them.
    pub closed spec fn spec_peers(&self) -> Seq<Peer> {
        self.peers@
    }

    /// The ids of the messages delivered so far.
    pub closed spec fn spec_seen(&self) -> Seq<Seq<u8>> {
        seen_view(self.seen_messages@)
    }

    /// The reassembly buffers.
    pub closed spec fn spec_buffers(&self) -> Seq<(Seq<u8>, Seq<(u16, Seq<u8>)>)> {
        buffers_view(self.reassembly_buffers@)
    }

    /// A node with the given identity, no peers, no delivered messages and no
    /// fragments.
    pub fn new(identity: UserIdentity) -> (m: NetworkManager)
        ensures
            m.wf(),
            m.spec_identity() == identity,
            m.spec_peers().len() == 0,
            m.spec_seen().len() == 0,
            m.spec_buffers().len() == 0,
    {
        let m = NetworkManager {
            identity,
            peers: Vec::new(),
            seen_messages: Vec::new(),
            reassembly_buffers: Vec::new(),
        };
        assert(buffers_view(m.reassembly_buffers@) =~= Seq::empty());
        assert(seen_view(m.seen_messages@) =~= Seq::empty());
        m
    }

    /// This node's bitchat id, derived from its Noise public key.
    pub fn self_bitchat_id(&self) -> (id: [u8; 8])
        ensures
            id@ == bitchat_id_of(self.spec_identity().noise_keypair.public@),
    {
        derive_bitchat_id(self.identity.noise_keypair.public.as_slice())
    }

    /// Sends `packet` to `receiver`, in fragments when it is too long for one
    /// radio write.
    fn send_packet_fragmented(
        &self,
        packet: BitchatPacket,
        receiver: PeerMapKey,
        actions: &mut Vec<NetworkAction>,
    )
        ensures
            final(actions)@.len() >= old(actions)@.len(),
            forall|k: int| 0 <= k < old(actions)@.len() ==> final(actions)@[k] == old(actions)@[k],
            actions_view(final(actions)@).len() >= actions_view(old(actions)@).len(),
            actions_view(final(actions)@).subrange(0, old(actions)@.len() as int) == actions_view(
                old(actions)@,
            ),
            fragmented_send(
                protocol::packet_bytes(packet@),
                receiver,
                bitchat_id_of(self.spec_identity().noise_keypair.public@),
                actions_view(final(actions)@).subrange(
                    old(actions)@.len() as int,
                    final(actions)@.len() as int,
                ),
            ),
    {
        let data_to_send = packet.to_bytes();
        let len = data_to_send.len();
        if len <= MAX_PAYLOAD_SIZE {
            actions.push(NetworkAction::Ble(BleCommand::SendData { receiver, data: data_to_send }));
            assert(actions_view(final(actions)@).subrange(
                old(actions)@.len() as int,
                final(actions)@.len() as int,
            ) =~= seq![ActionView::SendData(receiver, protocol::packet_bytes(packet@))]);
            assert(actions_view(final(actions)@).subrange(0, old(actions)@.len() as int) =~= actions_view(old(actions)@));
            return;
        }
        let fragment_id = new_uuid_v4();
        let total: usize = len / FRAGMENT_CHUNK_SIZE + if len % FRAGMENT_CHUNK_SIZE == 0 {
            0
        } else {
            1
        };
        assert(total == chunk_count(len as int));
        let total_fragments = total as u16;
        let sender_id = self.self_bitchat_id();
        let ghost bytes = data_to_send@;
        let ghost start_len = actions@.len();
        let ghost mut stamps: Seq<u64> = Seq::empty();
        let mut i: usize = 0;
        while i < total
            invariant
                bytes == data_to_send@,
                bytes == protocol::packet_bytes(packet@),
                len == bytes.len() > 480,
                total == chunk_count(len as int),
                total_fragments == total as u16,
                i <= total,
                sender_id@ == bitchat_id_of(self.spec_identity().noise_keypair.public@),
                fragment_id@.len() == 16,
                actions@.len() == start_len + i,
                start_len == old(actions)@.len(),
                stamps.len() == i,
                forall|k: int| 0 <= k < start_len ==> actions@[k] == old(actions)@[k],
                forall|k: int|
                    0 <= k < i ==> #[trigger] actions@[start_len + k]@ == ActionView::SendData(
                        receiver,
                        protocol::packet_bytes(
                            fragment_packet(
                                fragment_id@,
                                k,
                                total as u16,
                                chunk_of(bytes, k),
                                stamps[k],
                                sender_id@,
                            ),
                        ),
                    ),
            decreases total - i,
        {
            proof {
                lemma_chunk_len(bytes, i as int);
            }
            let start = i * FRAGMENT_CHUNK_SIZE;
            let end = if len - start > FRAGMENT_CHUNK_SIZE {
                start + FRAGMENT_CHUNK_SIZE
            } else {
                len
            };
            let chunk = copy_range(data_to_send.as_slice(), start, end);
            let fragment = FragmentPacket {
                id: fragment_id,
                index: i as u16,
                count: total_fragments,
                data: chunk,
            };
            let ts = now_millis();
            let bitchat_packet = BitchatPacket {
                version: 1,
                packet_type: MessageType::Fragment,
                ttl: 1,
                timestamp: ts,
                flags: PacketFlags::empty(),
                sender_id,
                recipient_id: None,
                payload: fragment.to_bytes(),
                signature: None,
            };
            let bytes_out = bitchat_packet.to_bytes();
            actions.push(NetworkAction::Ble(BleCommand::SendData { receiver, data: bytes_out }));
            proof {
                stamps = stamps.push(ts);
                assert(bitchat_packet@ == fragment_packet(
                    fragment_id@,
                    i as int,
                    total as u16,
                    chunk_of(bytes, i as int),
                    ts,
                    sender_id@,
                ));
            }
            i = i + 1;
        }
        proof {
            let seg = actions_view(actions@).subrange(start_len as int, actions@.len() as int);
            assert(actions_view(actions@).subrange(0, start_len as int) =~= actions_view(old(actions)@));
            let n = chunk_count(bytes.len() as int);
            assert forall|k: int| #![trigger seg[k]] 0 <= k < seg.len() implies seg[k] == ActionView::SendData(
                receiver,
                protocol::packet_bytes(
                    fragment_packet(fragment_id@, k, n as u16, chunk_of(bytes, k), stamps[k], sender_id@),
                ),
            ) by {
                assert(seg[k] == actions@[start_len + k]@);
            }
            assert(fragments_sent(bytes, receiver, sender_id@, seg, fragment_id@, stamps));
        }
    }
}

// ---------------------------------------------------------------------------
// Packets from peers
// ---------------------------------------------------------------------------

/// `a` sends a handshake packet, with some payload and time, to `id`.
pub open spec fn is_handshake_send(a: ActionView, id: PeerMapKey, sender: Seq<u8>) -> bool {
    exists|payload: Seq<u8>, ts: u64|
        #![trigger control_packet(MessageType::NoiseHandshake, payload, ts, sender)]
        a == ActionView::SendData(
            id,
            protocol::packet_bytes(control_packet(MessageType::NoiseHandshake, payload, ts, sender)),
        )
}

/// `a` sends a handshake packet carrying exactly `payload`, stamped with some
/// time, to `id`.
pub open spec fn sends_handshake_payload(a: ActionView, id: PeerMapKey, sender: Seq<u8>, payload: Seq<u8>) -> bool {
    exists|ts: u64|
        #![trigger control_packet(MessageType::NoiseHandshake, payload, ts, sender)]
        a == ActionView::SendData(
            id,
            protocol::packet_bytes(control_packet(MessageType::NoiseHandshake, payload, ts, sender)),
        )
}

/// What a handshaking peer's handshake step does, given its outcome and the
/// session after it: an error drops the peer back to `Discovered` silently; a
/// completed step without reply connects it and reports that; a reply is sent
/// back to the peer, and when the session is then in transport mode the peer
/// is connected and that is reported, else it keeps handshaking.
pub open spec fn handshake_step_effect(
    id: PeerMapKey,
    noise: NoiseSession,
    outcome: Option<Option<Seq<u8>>>,
    sender: Seq<u8>,
    new_state: PeerState,
    acts: Seq<ActionView>,
) -> bool {
    match outcome {
        None => new_state is Discovered && acts.len() == 0,
        Some(None) => new_state == (PeerState::Connected { noise }) && acts == seq![ActionView::PeerConnected(id)],
        Some(Some(reply)) => {
            &&& acts.len() >= 1
            &&& sends_handshake_payload(acts[0], id, sender, reply)
            &&& if noise.in_transport() {
                &&& new_state == (PeerState::Connected { noise })
                &&& acts.len() == 2
                &&& acts[1] == ActionView::PeerConnected(id)
            } else {
                new_state == (PeerState::Handshaking { noise }) && acts.len() == 1
            }
        },
    }
}

/// What a discovered peer's first handshake message does once this node's
/// new responder session has read it: a reply is sent and the peer is
/// handshaking; a step that ends without reply connects the peer (silently)
/// when the session is in transport mode, else drops it; an error drops it.
pub open spec fn responder_step_effect(
    id: PeerMapKey,
    noise: NoiseSession,
    outcome: Option<Option<Seq<u8>>>,
    sender: Seq<u8>,
    new_state: PeerState,
    acts: Seq<ActionView>,
) -> bool {
    match outcome {
        None => new_state is Discovered && acts.len() == 0,
        Some(None) => acts.len() == 0 && if noise.in_transport() {
            new_state == (PeerState::Connected { noise })
        } else {
            new_state is Discovered
        },
        Some(Some(reply)) => {
            &&& new_state == (PeerState::Handshaking { noise })
            &&& acts.len() == 1
            &&& sends_handshake_payload(acts[0], id, sender, reply)
        },
    }
}

/// Acts on the outcome of a handshaking peer's handshake step, where `noise`
/// is the session after the step.
pub fn after_handshake_step(
    id: PeerMapKey,
    noise: NoiseSession,
    outcome: Result<Option<Vec<u8>>, NoiseError>,
    sender: [u8; 8],
    actions: &mut Vec<NetworkAction>,
) -> (new_state: PeerState)
    requires
        outcome matches Ok(_) ==> !noise.is_broken() && noise.ours(),
        outcome matches Ok(None) ==> noise.in_transport(),
    ensures
        final(actions)@.len() >= old(actions)@.len(),
        forall|k: int| 0 <= k < old(actions)@.len() ==> final(actions)@[k] == old(actions)@[k],
        handshake_step_effect(
            id,
            noise,
            crate::noise::handshake_outcome(outcome),
            sender@,
            new_state,
            actions_view(final(actions)@).subrange(old(actions)@.len() as int, final(actions)@.len() as int),
        ),
        state_wf(new_state),
{
    let ghost start = actions@.len();
    let new_state = match outcome {
        Ok(Some(reply_payload)) => {
            send_handshake(actions, id, reply_payload, sender);
            if noise.is_transport_mode() {
                actions.push(NetworkAction::Event(NetworkEvent::PeerConnected(id)));
                PeerState::Connected { noise }
            } else {
                PeerState::Handshaking { noise }
            }
        },
        Ok(None) => {
            actions.push(NetworkAction::Event(NetworkEvent::PeerConnected(id)));
            PeerState::Connected { noise }
        },
        Err(_) => PeerState::Discovered,
    };
    proof {
        let seg = actions_view(actions@).subrange(start as int, actions@.len() as int);
        if seg.len() >= 1 {
            assert(seg[0] == actions@[start as int]@);
        }
        if seg.len() == 2 {
            assert(seg[1] == actions@[start as int + 1]@);
        }
        if seg.len() == 1 {
            assert(seg =~= seq![seg[0]]);
        }
    }
    new_state
}

/// Acts on the outcome of a new responder session reading a discovered peer's
/// first handshake message, where `noise` is the session after the read.
pub fn after_responder_step(
    id: PeerMapKey,
    noise: NoiseSession,
    outcome: Result<Option<Vec<u8>>, NoiseError>,
    sender: [u8; 8],
    actions: &mut Vec<NetworkAction>,
) -> (new_state: PeerState)
    requires
        outcome matches Ok(_) ==> !noise.is_broken() && noise.ours(),
    ensures
        final(actions)@.len() >= old(actions)@.len(),
        forall|k: int| 0 <= k < old(actions)@.len() ==> final(actions)@[k] == old(actions)@[k],
        responder_step_effect(
            id,
            noise,
            crate::noise::handshake_outcome(outcome),
            sender@,
            new_state,
            actions_view(final(actions)@).subrange(old(actions)@.len() as int, final(actions)@.len() as int),
        ),
        state_wf(new_state),
{
    let ghost start = actions@.len();
    let new_state = match outcome {
        Ok(Some(reply_payload)) => {
            send_handshake(actions, id, reply_payload, sender);
            PeerState::Handshaking { noise }
        },
        Ok(None) => {
            if noise.is_transport_mode() {
                PeerState::Connected { noise }
            } else {
                PeerState::Discovered
            }
        },
        Err(_) => PeerState::Discovered,
    };
    proof {
        let seg = actions_view(actions@).subrange(start as int, actions@.len() as int);
        if seg.len() >= 1 {
            assert(seg[0] == actions@[start as int]@);
        }
    }
    new_state
}

/// Builds a packet of kind `t` carrying `payload`, stamped with the current
/// time.
fn build_control_packet(t: MessageType, payload: Vec<u8>, sender: [u8; 8]) -> (p: BitchatPacket)
    ensures
        p@ == control_packet(t, payload@, p.timestamp, sender@),
{
    BitchatPacket {
        version: 1,
        packet_type: t,
        ttl: 1,
        timestamp: now_millis(),
        flags: PacketFlags::empty(),
        sender_id: sender,
        recipient_id: None,
        payload,
        signature: None,
    }
}

/// Queues a handshake packet carrying `payload` for `receiver`.
fn send_handshake(
    actions: &mut Vec<NetworkAction>,
    receiver: PeerMapKey,
    payload: Vec<u8>,
    sender: [u8; 8],
)
    ensures
        final(actions)@.len() == old(actions)@.len() + 1,
        forall|k: int| 0 <= k < old(actions)@.len() ==> final(actions)@[k] == old(actions)@[k],
        is_handshake_send(final(actions)@[old(actions)@.len() as int]@, receiver, sender@),
        payload@.len() == 32 ==> is_handshake_init_send(
            final(actions)@[old(actions)@.len() as int]@,
            receiver,
            sender@,
        ),
        sends_handshake_payload(final(actions)@[old(actions)@.len() as int]@, receiver, sender@, payload@),
{
    let packet = build_control_packet(MessageType::NoiseHandshake, payload, sender);
    let ghost pl = packet.payload@;
    let ghost ts = packet.timestamp;
    actions.push(NetworkAction::Ble(BleCommand::SendData { receiver, data: packet.to_bytes() }));
    assert(final(actions)@[old(actions)@.len() as int]@ == ActionView::SendData(
        receiver,
        protocol::packet_bytes(control_packet(MessageType::NoiseHandshake, pl, ts, sender@)),
    ));
}

/// Copies an optional byte vector.
fn copy_opt(v: &Vec<u8>) -> (w: Vec<u8>)
    ensures
        w@ == v@,
{
    copy_range(v.as_slice(), 0, v.len())
}

/// Records what an announcement payload says about `peer`, when it decodes.
fn apply_announce(peer: &mut Peer, payload: &[u8])
    ensures
        final(peer).info() == announce_update(old(peer).info(), payload@),
        final(peer).state == old(peer).state,
        final(peer).id == old(peer).id,
{
    match AnnouncementPacket::from_bytes(payload) {
        Ok(announce) => {
            let id = derive_bitchat_id(announce.noise_public_key.as_slice());
            peer.name = announce.nickname;
            peer.noise_public_key = Some(copy_opt(&announce.noise_public_key));
            peer.signing_public_key = Some(announce.signing_public_key);
            peer.bitchat_id = Some(id);
        },
        Err(_) => {},
    }
}

/// The session a handshaking or connected peer holds.
pub open spec fn session_in(s: PeerState) -> NoiseSession {
    match s {
        PeerState::Handshaking { noise } => noise,
        PeerState::Connected { noise } => noise,
        _ => arbitrary(),
    }
}

/// A responder session for `NOISE_PARAMS` that has not read anything yet.
pub open spec fn fresh_responder(r: NoiseSession) -> bool {
    &&& r.in_handshake()
    &&& r.ours()
    &&& !r.is_initiator()
    &&& r.transcript() == Seq::<Seq<u8>>::empty()
}

/// What a handshaking peer's packet does. A handshake packet is read by the
/// session, whose outcome depends on keys this contract cannot see, and the
/// peer then fares as `handshake_step_effect` says for that outcome and the
/// session after it; an announcement updates the peer's details.
pub open spec fn handshaking_effect(
    old_peer: PeerInfo,
    old_state: PeerState,
    new_peer: PeerInfo,
    new_state: PeerState,
    p: PacketView,
    sender: Seq<u8>,
    acts: Seq<ActionView>,
) -> bool {
    let id = old_peer.id;
    if p.packet_type == MessageType::NoiseHandshake {
        &&& new_peer == old_peer
        &&& exists|n: NoiseSession, o: Option<Option<Seq<u8>>>|
            #![trigger handshake_step_effect(id, n, o, sender, new_state, acts)]
            (o == Some(None::<Seq<u8>>) ==> n.in_transport()) && (session_in(old_state).in_handshake()
                ==> crate::noise::read_step(session_in(old_state), p.payload, n, o))
                && handshake_step_effect(id, n, o, sender, new_state, acts)
    } else if p.packet_type == MessageType::Announce {
        &&& new_peer == announce_update(old_peer, p.payload)
        &&& new_state == old_state
        &&& acts.len() == 0
    } else {
        &&& new_peer == old_peer
        &&& new_state == old_state
        &&& acts.len() == 0
    }
}

fn on_handshaking(
    peer: &mut Peer,
    noise: NoiseSession,
    packet: &BitchatPacket,
    sender: [u8; 8],
    actions: &mut Vec<NetworkAction>,
) -> (new_state: PeerState)
    requires
        !noise.is_broken(),
        noise.ours(),
    ensures
        final(actions)@.len() >= old(actions)@.len(),
        forall|k: int| 0 <= k < old(actions)@.len() ==> final(actions)@[k] == old(actions)@[k],
        final(peer).state == old(peer).state,
        final(peer).id == old(peer).id,
        handshaking_effect(
            old(peer).info(),
            PeerState::Handshaking { noise },
            final(peer).info(),
            new_state,
            packet@,
            sender@,
            actions_view(final(actions)@).subrange(old(actions)@.len() as int, final(actions)@.len() as int),
        ),
        state_wf(new_state),
{
    let ghost start = actions@.len();
    let mut noise = noise;
    let new_state = match packet.packet_type {
        MessageType::NoiseHandshake => {
            let ghost n0 = noise;
            let outcome = noise.handshake_read(packet.payload.as_slice());
            let ghost n = noise;
            let ghost o = crate::noise::handshake_outcome(outcome);
            let st = after_handshake_step(peer.id, noise, outcome, sender, actions);
            proof {
                let seg = actions_view(actions@).subrange(start as int, actions@.len() as int);
                assert(handshake_step_effect(peer.id, n, o, sender@, st, seg));
                assert(session_in(PeerState::Handshaking { noise: n0 }) == n0);
            }
            st
        },
        MessageType::Announce => {
            apply_announce(peer, packet.payload.as_slice());
            PeerState::Handshaking { noise }
        },
        _ => PeerState::Handshaking { noise },
    };
    proof {
        let seg = actions_view(actions@).subrange(start as int, actions@.len() as int);
        if seg.len() >= 1 {
            assert(seg[0] == actions@[start as int]@);
        }
        if seg.len() == 2 {
            assert(seg[1] == actions@[start as int + 1]@);
        }
        if seg.len() == 1 {
            assert(seg =~= seq![seg[0]]);
        }
    }
    new_state
}

/// `a` sends the first handshake message of an initiator, its 32-byte
/// ephemeral key, with some time, to `id`.
pub open spec fn is_handshake_init_send(a: ActionView, id: PeerMapKey, sender: Seq<u8>) -> bool {
    exists|payload: Seq<u8>, ts: u64|
        #![trigger control_packet(MessageType::NoiseHandshake, payload, ts, sender)]
        payload.len() == 32 && a == ActionView::SendData(
            id,
            protocol::packet_bytes(control_packet(MessageType::NoiseHandshake, payload, ts, sender)),
        )
}

/// A handshake was started as initiator: the peer is handshaking and exactly
/// the first handshake message was sent to it.
pub open spec fn handshake_started(new_state: PeerState, acts: Seq<ActionView>, id: PeerMapKey, sender: Seq<u8>) -> bool {
    &&& new_state is Handshaking
    &&& acts.len() == 1
    &&& is_handshake_init_send(acts[0], id, sender)
}

/// What a discovered peer's packet does: an announcement or a plain message
/// makes this node start a handshake as initiator; a handshake packet makes it
/// answer as responder; fragments and other kinds are ignored.
pub open spec fn discovered_effect(
    old_peer: PeerInfo,
    new_peer: PeerInfo,
    new_state: PeerState,
    p: PacketView,
    sender: Seq<u8>,
    acts: Seq<ActionView>,
) -> bool {
    let id = old_peer.id;
    if p.packet_type == MessageType::Announce {
        &&& new_peer == announce_update(old_peer, p.payload)
        &&& handshake_started(new_state, acts, id, sender)
    } else if p.packet_type == MessageType::Message {
        &&& new_peer == old_peer
        &&& handshake_started(new_state, acts, id, sender)
    } else if p.packet_type == MessageType::NoiseHandshake {
        &&& new_peer == old_peer
        &&& exists|r0: NoiseSession, n: NoiseSession, o: Option<Option<Seq<u8>>>|
            #![trigger responder_step_effect(id, n, o, sender, new_state, acts), crate::noise::read_step(r0, p.payload, n, o)]
            fresh_responder(r0) && crate::noise::read_step(r0, p.payload, n, o) && responder_step_effect(
                id,
                n,
                o,
                sender,
                new_state,
                acts,
            )
    } else {
        &&& new_peer == old_peer
        &&& new_state is Discovered
        &&& acts.len() == 0
    }
}

fn start_handshake(id: PeerMapKey, sender: [u8; 8], actions: &mut Vec<NetworkAction>) -> (new_state: PeerState)
    ensures
        final(actions)@.len() >= old(actions)@.len(),
        forall|k: int| 0 <= k < old(actions)@.len() ==> final(actions)@[k] == old(actions)@[k],
        handshake_started(
            new_state,
            actions_view(final(actions)@).subrange(old(actions)@.len() as int, final(actions)@.len() as int),
            id,
            sender@,
        ),
        state_wf(new_state),
{
    let ghost start = actions@.len();
    match NoiseSession::new_initiator() {
        Ok((noise, init_msg)) => {
            send_handshake(actions, id, init_msg, sender);
            proof {
                let seg = actions_view(actions@).subrange(start as int, actions@.len() as int);
                assert(seg[0] == actions@[start as int]@);
            }
            PeerState::Handshaking { noise }
        },
        Err(_) => {
            assert(actions_view(actions@).subrange(start as int, actions@.len() as int).len() == 0);
            PeerState::Discovered
        },
    }
}

fn on_discovered(
    peer: &mut Peer,
    packet: &BitchatPacket,
    sender: [u8; 8],
    actions: &mut Vec<NetworkAction>,
) -> (new_state: PeerState)
    ensures
        final(actions)@.len() >= old(actions)@.len(),
        forall|k: int| 0 <= k < old(actions)@.len() ==> final(actions)@[k] == old(actions)@[k],
        final(peer).state == old(peer).state,
        final(peer).id == old(peer).id,
        discovered_effect(
            old(peer).info(),
            final(peer).info(),
            new_state,
            packet@,
            sender@,
            actions_view(final(actions)@).subrange(old(actions)@.len() as int, final(actions)@.len() as int),
        ),
        state_wf(new_state),
{
    let ghost start = actions@.len();
    match packet.packet_type {
        MessageType::Announce => {
            apply_announce(peer, packet.payload.as_slice());
            start_handshake(peer.id, sender, actions)
        },
        MessageType::Message => start_handshake(peer.id, sender, actions),
        MessageType::NoiseHandshake => {
            match NoiseSession::new_responder() {
                Ok(noise) => {
                    let mut noise = noise;
                    let ghost r0 = noise;
                    let outcome = noise.handshake_read(packet.payload.as_slice());
                    let ghost n = noise;
                    let ghost o = crate::noise::handshake_outcome(outcome);
                    let st = after_responder_step(peer.id, noise, outcome, sender, actions);
                    proof {
                        let seg = actions_view(actions@).subrange(start as int, actions@.len() as int);
                        assert(responder_step_effect(peer.id, n, o, sender@, st, seg));
                        assert(crate::noise::read_step(r0, packet@.payload, n, o));
                        assert(fresh_responder(r0));
                    }
                    st
                },
                Err(_) => PeerState::Discovered,
            }
        },
        _ => PeerState::Discovered,
    }
}

/// A chat message that arrived in the clear: delivered when it decodes and
/// its id is new, ignored otherwise.
pub open spec fn plain_message_effect(
    info: PeerInfo,
    p: PacketView,
    old_seen: Seq<Seq<u8>>,
    new_seen: Seq<Seq<u8>>,
    acts: Seq<ActionView>,
) -> bool {
    match protocol::parse_message(p.payload) {
        Ok(m) => if old_seen.contains(m.id) {
            new_seen == old_seen && acts.len() == 0
        } else {
            new_seen == old_seen.push(m.id) && acts == seq![
                ActionView::NewMessage(info.id, info.name, m.content, p.timestamp),
            ]
        },
        Err(_) => new_seen == old_seen && acts.len() == 0,
    }
}

/// What a decrypted payload amounts to.
pub enum Delivery {
    /// Nothing to deliver.
    Ignored,
    /// The inner message was flagged compressed and did not decompress.
    DecompressFailed,
    /// A new chat message, and the inner packet that carried it.
    Delivered(protocol::MessageView, PacketView),
}

/// What a decrypted payload `pt` amounts to, given the ids already delivered:
/// an inner `Message` packet whose (decompressed, when flagged) payload is a
/// chat message with a new id is delivered. A payload that overruns the packet
/// header counts as undecodable.
pub open spec fn decrypted_delivery(pt: Seq<u8>, seen: Seq<Seq<u8>>) -> Delivery {
    if protocol::overruns_header(pt) {
        Delivery::Ignored
    } else {
        match protocol::parse_packet(pt) {
            Err(_) => Delivery::Ignored,
            Ok(inner) => if inner.packet_type != MessageType::Message {
                Delivery::Ignored
            } else {
                let body = if protocol::flag_set(inner.flags, 4) {
                    compression::spec_lz4_decompress(inner.payload)
                } else {
                    Some(inner.payload)
                };
                match body {
                    None => Delivery::DecompressFailed,
                    Some(b) => match protocol::parse_message(b) {
                        Err(_) => Delivery::Ignored,
                        Ok(m) => if seen.contains(m.id) {
                            Delivery::Ignored
                        } else {
                            Delivery::Delivered(m, inner)
                        },
                    },
                }
            },
        }
    }
}

/// What the receiving code learns from the outside decoders while it reads a
/// decrypted payload `pt` that holds a `Message` packet: a flagged payload
/// that is the compression of some bytes (whose length fits the size prefix)
/// decompresses to those bytes, and a message body that is the encoding of a
/// well-formed chat message decodes to that message.
pub open spec fn decoders_agree(pt: Seq<u8>) -> bool {
    !protocol::overruns_header(pt) && protocol::parse_packet(pt) is Ok && protocol::parse_packet(
        pt,
    )->Ok_0.packet_type == MessageType::Message ==> {
        let inner = protocol::parse_packet(pt)->Ok_0;
        let body = if protocol::flag_set(inner.flags, 4) {
            compression::spec_lz4_decompress(inner.payload)
        } else {
            Some(inner.payload)
        };
        &&& protocol::flag_set(inner.flags, 4) ==> forall|d: Seq<u8>|
            #![trigger compression::spec_lz4_compress(d)]
            d.len() <= u32::MAX && compression::spec_lz4_compress(d) == inner.payload
                ==> compression::spec_lz4_decompress(inner.payload) == Some(d)
        &&& body matches Some(b) ==> forall|m: protocol::MessageView|
            #![trigger protocol::message_bytes(m)]
            protocol::message_wf(m) && protocol::message_bytes(m) == b ==> protocol::parse_message(b)
                == Ok::<protocol::MessageView, Seq<char>>(m)
    }
}

/// The packet with its TTL lowered by one (wrapping at zero).
pub open spec fn relayed(p: PacketView) -> PacketView {
    PacketView { ttl: if p.ttl == 0 { 255 } else { (p.ttl - 1) as u8 }, ..p }
}

/// What a decrypted payload does to a connected peer: a new chat message is
/// delivered and, when the inner TTL is above 1, the outer packet `p` is passed
/// on with its TTL lowered; a compressed message that does not decompress
/// leaves the peer half-handled; anything else changes nothing.
pub open spec fn delivery_effect(
    info: PeerInfo,
    d: Delivery,
    new_state: PeerState,
    p: PacketView,
    old_seen: Seq<Seq<u8>>,
    new_seen: Seq<Seq<u8>>,
    acts: Seq<ActionView>,
    relay: Option<PacketView>,
) -> bool {
    match d {
        Delivery::Ignored => new_state is Connected && new_seen == old_seen && acts.len() == 0
            && relay is None,
        Delivery::DecompressFailed => new_state is Transitioning && new_seen == old_seen && acts.len()
            == 0 && relay is None,
        Delivery::Delivered(m, inner) => {
            &&& new_state is Connected
            &&& new_seen == old_seen.push(m.id)
            &&& acts == seq![ActionView::NewMessage(info.id, info.name, m.content, inner.timestamp)]
            &&& relay == if inner.ttl > 1 {
                Some(relayed(p))
            } else {
                None
            }
        },
    }
}

/// `c` is a transport message that session `s` opens: `s` is in transport
/// mode for `NOISE_PARAMS` with its receiving nonce not used up, `c` fits a
/// Noise message, and the other end of the handshake sealed some plaintext to
/// `c` under that nonce.
pub open spec fn opens(s: NoiseSession, c: Seq<u8>) -> bool {
    &&& s.in_transport()
    &&& s.ours()
    &&& s.received() < u64::MAX
    &&& c.len() <= 65535
    &&& exists|pt: Seq<u8>| #[trigger] crate::noise::opens_next(s, c, pt)
}

/// `new` is session `old` after it decrypted one more message: still in
/// transport mode for the same handshake, with the same sending side.
pub open spec fn decrypted_once(old: NoiseSession, new: NoiseSession) -> bool {
    &&& new.in_transport()
    &&& new.ours() == old.ours()
    &&& new.transcript() == old.transcript()
    &&& new.is_initiator() == old.is_initiator()
    &&& new.sent() == old.sent()
    &&& new.can_send() == old.can_send()
    &&& new.received() == old.received() + 1
}

/// The plaintext that `s` opens `c` to.
pub open spec fn opened(s: NoiseSession, c: Seq<u8>) -> Seq<u8> {
    choose|pt: Seq<u8>| #[trigger] crate::noise::opens_next(s, c, pt)
}

/// What an encrypted packet `p` from a peer connected with `old_state` does.
/// When its session opens the payload, the outcome is what the plaintext it
/// opens to amounts to (`delivery_effect`), a peer that stays connected keeps
/// the session that decrypted it, the payload opens to no other plaintext, and
/// the decoders agree with the encoders on it (`decoders_agree`). Otherwise the payload does not
/// authenticate and is dropped: the peer stays connected and nothing is
/// recorded, sent or relayed.
pub open spec fn encrypted_effect(
    info: PeerInfo,
    old_state: PeerState,
    new_state: PeerState,
    p: PacketView,
    old_seen: Seq<Seq<u8>>,
    new_seen: Seq<Seq<u8>>,
    acts: Seq<ActionView>,
    relay: Option<PacketView>,
) -> bool {
    let s = session_in(old_state);
    if opens(s, p.payload) {
        &&& delivery_effect(
            info,
            decrypted_delivery(opened(s, p.payload), old_seen),
            new_state,
            p,
            old_seen,
            new_seen,
            acts,
            relay,
        )
        &&& new_state is Connected ==> decrypted_once(s, session_in(new_state))
        &&& forall|pt: Seq<u8>|
            #[trigger] crate::noise::opens_next(s, p.payload, pt) ==> pt == opened(s, p.payload)
        &&& decoders_agree(opened(s, p.payload))
    } else {
        new_state is Connected && new_seen == old_seen && acts.len() == 0 && relay is None
    }
}

/// The position of the buffer for `id`, or -1.
pub open spec fn buffer_pos(bs: Seq<(Seq<u8>, Seq<(u16, Seq<u8>)>)>, id: Seq<u8>) -> int {
    if exists|j: int| 0 <= j < bs.len() && bs[j].0 == id {
        choose|j: int| 0 <= j < bs.len() && bs[j].0 == id
    } else {
        -1
    }
}

/// The chunks with `(index, data)` recorded, replacing an earlier chunk of the
/// same index.
pub open spec fn chunks_insert(cs: Seq<(u16, Seq<u8>)>, index: u16, data: Seq<u8>) -> Seq<(u16, Seq<u8>)> {
    if exists|j: int| 0 <= j < cs.len() && cs[j].0 == index {
        cs.update(choose|j: int| 0 <= j < cs.len() && cs[j].0 == index, (index, data))
    } else {
        cs.push((index, data))
    }
}

/// The buffers after fragment `f` is recorded, and whether its message now has
/// as many distinct fragments as its count; a complete buffer is dropped.
pub open spec fn fragment_step(
    bs: Seq<(Seq<u8>, Seq<(u16, Seq<u8>)>)>,
    f: protocol::FragmentView,
) -> (Seq<(Seq<u8>, Seq<(u16, Seq<u8>)>)>, bool) {
    let j = buffer_pos(bs, f.id);
    let cs = if j >= 0 {
        chunks_insert(bs[j].1, f.index, f.data)
    } else {
        seq![(f.index, f.data)]
    };
    let pos = if j >= 0 {
        j
    } else {
        bs.len() as int
    };
    let bs1 = if j >= 0 {
        bs.update(j, (f.id, cs))
    } else {
        bs.push((f.id, cs))
    };
    if cs.len() == f.count {
        (bs1.remove(pos), true)
    } else {
        (bs1, false)
    }
}

/// The data recorded for index `i`, when there is some.
pub open spec fn chunk_at(cs: Seq<(u16, Seq<u8>)>, i: int) -> Option<Seq<u8>> {
    if exists|j: int| 0 <= j < cs.len() && cs[j].0 == i {
        Some(cs[choose|j: int| 0 <= j < cs.len() && cs[j].0 == i].1)
    } else {
        None
    }
}

/// The data of indices `0..k`, joined in index order; `None` when one index is
/// missing.
pub open spec fn joined_chunks(cs: Seq<(u16, Seq<u8>)>, k: int) -> Option<Seq<u8>>
    decreases k,
{
    if k <= 0 {
        Some(Seq::empty())
    } else {
        match joined_chunks(cs, k - 1) {
            Some(a) => match chunk_at(cs, k - 1) {
                Some(b) => Some(a + b),
                None => None,
            },
            None => None,
        }
    }
}

/// The chunks of `f`'s message once `f` is recorded.
pub open spec fn step_chunks(
    bs: Seq<(Seq<u8>, Seq<(u16, Seq<u8>)>)>,
    f: protocol::FragmentView,
) -> Seq<(u16, Seq<u8>)> {
    let j = buffer_pos(bs, f.id);
    if j >= 0 {
        chunks_insert(bs[j].1, f.index, f.data)
    } else {
        seq![(f.index, f.data)]
    }
}

/// What recording `f` hands on: when it completes its message, the data of
/// indices `0..count` joined (`None` if one is missing); otherwise nothing.
pub open spec fn fragment_payload(
    bs: Seq<(Seq<u8>, Seq<(u16, Seq<u8>)>)>,
    f: protocol::FragmentView,
) -> Option<Seq<u8>> {
    if step_chunks(bs, f).len() == f.count {
        joined_chunks(step_chunks(bs, f), f.count as int)
    } else {
        None
    }
}

/// Once an index is missing, every longer join is missing too.
proof fn lemma_joined_missing(cs: Seq<(u16, Seq<u8>)>, k: int, m: int)
    requires
        0 <= k <= m,
        joined_chunks(cs, k) is None,
    ensures
        joined_chunks(cs, m) is None,
    decreases m - k,
{
    if k < m {
        lemma_joined_missing(cs, k + 1, m);
    }
}

/// Fragment `i` of `bytes` under id `fid`, as its receiver decodes it.
pub open spec fn fragment_view_of(bytes: Seq<u8>, fid: Seq<u8>, i: int) -> protocol::FragmentView {
    protocol::FragmentView {
        id: fid,
        index: i as u16,
        count: chunk_count(bytes.len() as int) as u16,
        data: chunk_of(bytes, i),
    }
}

/// The buffers after fragments `0..k` of `bytes` are recorded in order.
pub open spec fn record_in_order(
    bs: Seq<(Seq<u8>, Seq<(u16, Seq<u8>)>)>,
    bytes: Seq<u8>,
    fid: Seq<u8>,
    k: int,
) -> Seq<(Seq<u8>, Seq<(u16, Seq<u8>)>)>
    decreases k,
{
    if k <= 0 {
        bs
    } else {
        fragment_step(record_in_order(bs, bytes, fid, k - 1), fragment_view_of(bytes, fid, k - 1)).0
    }
}

/// Chunks `0..k` of `bytes`, each under its index.
pub open spec fn first_chunks(bytes: Seq<u8>, k: int) -> Seq<(u16, Seq<u8>)> {
    Seq::new(k as nat, |i: int| (i as u16, chunk_of(bytes, i)))
}

/// The buffers while fragments of `bytes` under `fid` are coming in: `k`
/// chunks so far, in a buffer after the others.
pub open spec fn partial_buffers(
    bs: Seq<(Seq<u8>, Seq<(u16, Seq<u8>)>)>,
    bytes: Seq<u8>,
    fid: Seq<u8>,
    k: int,
) -> Seq<(Seq<u8>, Seq<(u16, Seq<u8>)>)> {
    if k == 0 {
        bs
    } else {
        bs.push((fid, first_chunks(bytes, k)))
    }
}

/// Recording fragment `k` next: the chunks become `0..k+1`, and the message is
/// complete exactly when that is all of them, its buffer then dropped.
proof fn lemma_record_next(bs: Seq<(Seq<u8>, Seq<(u16, Seq<u8>)>)>, bytes: Seq<u8>, fid: Seq<u8>, k: int)
    requires
        forall|j: int| 0 <= j < bs.len() ==> bs[j].0 != fid,
        0 <= k < chunk_count(bytes.len() as int) <= 65535,
    ensures
        step_chunks(partial_buffers(bs, bytes, fid, k), fragment_view_of(bytes, fid, k)) == first_chunks(bytes, k + 1),
        fragment_step(partial_buffers(bs, bytes, fid, k), fragment_view_of(bytes, fid, k)).1 == (k + 1
            == chunk_count(bytes.len() as int)),
        fragment_step(partial_buffers(bs, bytes, fid, k), fragment_view_of(bytes, fid, k)).0 == if k + 1
            == chunk_count(bytes.len() as int) {
            bs
        } else {
            partial_buffers(bs, bytes, fid, k + 1)
        },
{
    let n = chunk_count(bytes.len() as int);
    let s = partial_buffers(bs, bytes, fid, k);
    let f = fragment_view_of(bytes, fid, k);
    let next = first_chunks(bytes, k + 1);
    if k == 0 {
        assert(buffer_pos(s, fid) == -1);
        assert(seq![(f.index, f.data)] =~= next);
    } else {
        let cs = first_chunks(bytes, k);
        assert(s[bs.len() as int].0 == fid);
        let j = buffer_pos(s, fid);
        assert(j == bs.len()) by {
            let c = choose|c: int| 0 <= c < s.len() && s[c].0 == fid;
            if c < bs.len() {
                assert(s[c] == bs[c]);
            }
        }
        assert forall|c: int| 0 <= c < cs.len() implies cs[c].0 != f.index by {
            assert(cs[c].0 == c as u16);
        }
        assert(chunks_insert(cs, f.index, f.data) =~= next);
        assert(s.update(j, (fid, next)) =~= bs.push((fid, next)));
    }
    assert(f.count == n);
    assert(bs.push((fid, next)).remove(bs.len() as int) =~= bs);
}

/// After `k` fragments in order the buffers are `partial_buffers`, and none
/// of those steps completed the message.
proof fn lemma_record_prefix(bs: Seq<(Seq<u8>, Seq<(u16, Seq<u8>)>)>, bytes: Seq<u8>, fid: Seq<u8>, k: int)
    requires
        forall|j: int| 0 <= j < bs.len() ==> bs[j].0 != fid,
        0 <= k < chunk_count(bytes.len() as int) <= 65535,
    ensures
        record_in_order(bs, bytes, fid, k) == partial_buffers(bs, bytes, fid, k),
    decreases k,
{
    if k > 0 {
        lemma_record_prefix(bs, bytes, fid, k - 1);
        lemma_record_next(bs, bytes, fid, k - 1);
    }
}

/// The chunk of index `i < k` among the first `k` chunks is chunk `i`.
proof fn lemma_first_chunks_at(bytes: Seq<u8>, k: int, i: int)
    requires
        0 <= i < k <= 65535,
    ensures
        chunk_at(first_chunks(bytes, k), i) == Some(chunk_of(bytes, i)),
{
    let cs = first_chunks(bytes, k);
    assert(cs[i].0 == i);
    let c = choose|c: int| 0 <= c < cs.len() && cs[c].0 == i;
    assert(cs[c].0 == c as u16);
}

/// Joining the first `m` of `k` chunks gives the first `m` chunks of `bytes`.
proof fn lemma_first_chunks_joined(bytes: Seq<u8>, k: int, m: int)
    requires
        0 <= m <= k <= 65535,
    ensures
        joined_chunks(first_chunks(bytes, k), m) == Some(join_chunks(bytes, m)),
    decreases m,
{
    if m > 0 {
        lemma_first_chunks_joined(bytes, k, m - 1);
        lemma_first_chunks_at(bytes, k, m - 1);
    }
}

/// Fragments reassemble: recording the fragments of a packet's bytes in order,
/// under an id no other buffer uses, completes the message exactly at the
/// last fragment, hands on exactly those bytes, and leaves the other buffers
/// as they were.
pub proof fn lemma_fragments_reassemble(bs: Seq<(Seq<u8>, Seq<(u16, Seq<u8>)>)>, bytes: Seq<u8>, fid: Seq<u8>)
    requires
        forall|j: int| 0 <= j < bs.len() ==> bs[j].0 != fid,
        0 < bytes.len(),
        chunk_count(bytes.len() as int) <= 65535,
    ensures
        forall|k: int|
            0 <= k < chunk_count(bytes.len() as int) - 1 ==> !(#[trigger] fragment_step(
                record_in_order(bs, bytes, fid, k),
                fragment_view_of(bytes, fid, k),
            )).1,
        fragment_step(
            record_in_order(bs, bytes, fid, chunk_count(bytes.len() as int) - 1),
            fragment_view_of(bytes, fid, chunk_count(bytes.len() as int) - 1),
        ).1,
        fragment_payload(
            record_in_order(bs, bytes, fid, chunk_count(bytes.len() as int) - 1),
            fragment_view_of(bytes, fid, chunk_count(bytes.len() as int) - 1),
        ) == Some(bytes),
        record_in_order(bs, bytes, fid, chunk_count(bytes.len() as int)) == bs,
{
    let n = chunk_count(bytes.len() as int);
    assert forall|k: int| 0 <= k < n - 1 implies !(#[trigger] fragment_step(
        record_in_order(bs, bytes, fid, k),
        fragment_view_of(bytes, fid, k),
    )).1 by {
        lemma_record_prefix(bs, bytes, fid, k);
        lemma_record_next(bs, bytes, fid, k);
    }
    lemma_record_prefix(bs, bytes, fid, n - 1);
    lemma_record_next(bs, bytes, fid, n - 1);
    lemma_first_chunks_joined(bytes, n, n);
    lemma_fragments_join(bytes);
}

/// What a fragmented send puts on the air is what the receiver records: radio
/// write `i` decodes as a fragment packet whose payload decodes to fragment
/// `i` of the bytes, under the send's fragment id.
pub proof fn lemma_sent_fragments_decode(
    bytes: Seq<u8>,
    receiver: PeerMapKey,
    sender: Seq<u8>,
    acts: Seq<ActionView>,
    fid: Seq<u8>,
    stamps: Seq<u64>,
    i: int,
)
    requires
        fragments_sent(bytes, receiver, sender, acts, fid, stamps),
        acts.len() == chunk_count(bytes.len() as int),
        sender.len() == 8,
        0 <= i < acts.len(),
    ensures
        acts[i] matches ActionView::SendData(r, d) && r == receiver && (protocol::parse_packet(d) matches Ok(p)
            && p.packet_type == MessageType::Fragment && protocol::parse_fragment(p.payload) == Ok::<
            protocol::FragmentView,
            Seq<char>,
        >(fragment_view_of(bytes, fid, i))),
{
    let n = chunk_count(bytes.len() as int);
    lemma_chunk_len(bytes, i);
    lemma_fragment_packet_decodes(fid, i, n as u16, chunk_of(bytes, i), stamps[i], sender);
}

fn same_bytes16(a: &[u8; 16], b: &[u8; 16]) -> (r: bool)
    ensures
        r == (a@ == b@),
{
    let mut i: usize = 0;
    while i < 16
        invariant
            i <= 16,
            a@.len() == 16,
            b@.len() == 16,
            forall|k: int| 0 <= k < i ==> a@[k] == b@[k],
        decreases 16 - i,
    {
        if a[i] != b[i] {
            return false;
        }
        i = i + 1;
    }
    assert(a@ =~= b@);
    true
}

fn seen_contains(seen: &Vec<[u8; 16]>, id: &[u8; 16]) -> (r: bool)
    ensures
        r == seen_view(seen@).contains(id@),
{
    let mut i: usize = 0;
    while i < seen.len()
        invariant
            i <= seen@.len(),
            forall|k: int| 0 <= k < i ==> seen@[k]@ != id@,
        decreases seen@.len() - i,
    {
        if same_bytes16(&seen[i], id) {
            assert(seen_view(seen@)[i as int] == id@);
            return true;
        }
        i = i + 1;
    }
    assert(!seen_view(seen@).contains(id@)) by {
        if seen_view(seen@).contains(id@) {
            let k = choose|k: int| 0 <= k < seen_view(seen@).len() && seen_view(seen@)[k] == id@;
            assert(seen@[k]@ == id@);
        }
    }
    false
}

/// Records a message id as delivered when it is new; true when it was new.
fn seen_insert(seen: &mut Vec<[u8; 16]>, id: [u8; 16]) -> (fresh: bool)
    ensures
        fresh == !seen_view(old(seen)@).contains(id@),
        seen_view(final(seen)@) == if fresh {
            seen_view(old(seen)@).push(id@)
        } else {
            seen_view(old(seen)@)
        },
{
    if seen_contains(seen, &id) {
        false
    } else {
        seen.push(id);
        assert(seen_view(seen@) =~= seen_view(old(seen)@).push(id@));
        true
    }
}

fn plain_message(
    peer: &Peer,
    packet: &BitchatPacket,
    seen: &mut Vec<[u8; 16]>,
    actions: &mut Vec<NetworkAction>,
)
    ensures
        final(actions)@.len() >= old(actions)@.len(),
        forall|k: int| 0 <= k < old(actions)@.len() ==> final(actions)@[k] == old(actions)@[k],
        plain_message_effect(
            peer.info(),
            packet@,
            seen_view(old(seen)@),
            seen_view(final(seen)@),
            actions_view(final(actions)@).subrange(old(actions)@.len() as int, final(actions)@.len() as int),
        ),
{
    let ghost start = actions@.len();
    match BitchatMessage::from_bytes(packet.payload.as_slice()) {
        Ok(message) => {
            if seen_insert(seen, message.id) {
                actions.push(
                    NetworkAction::Event(
                        NetworkEvent::NewMessage {
                            sender_id: peer.id,
                            sender_name: peer.name.clone(),
                            content: message.content,
                            timestamp: packet.timestamp,
                        },
                    ),
                );
                proof {
                    let seg = actions_view(actions@).subrange(start as int, actions@.len() as int);
                    assert(seg[0] == actions@[start as int]@);
                    assert(seg =~= seq![seg[0]]);
                }
            }
        },
        Err(_) => {},
    }
}

/// What a decrypted payload amounted to, with the decoded values.
enum Decrypted {
    Ignored,
    DecompressFailed,
    Delivered(BitchatMessage, BitchatPacket),
}

fn classify_plaintext(pt: &[u8], seen: &Vec<[u8; 16]>) -> (r: Decrypted)
    ensures
        decoders_agree(pt@),
        match decrypted_delivery(pt@, seen_view(seen@)) {
            Delivery::Ignored => r is Ignored,
            Delivery::DecompressFailed => r is DecompressFailed,
            Delivery::Delivered(m, inner) => r matches Decrypted::Delivered(m2, p2) && m2@ == m
                && p2@ == inner,
        },
{
    if protocol::header_overrun(pt) {
        return Decrypted::Ignored;
    }
    let inner = match BitchatPacket::from_bytes(pt) {
        Ok(p) => p,
        Err(_) => return Decrypted::Ignored,
    };
    if !inner.packet_type.same_as(&MessageType::Message) {
        return Decrypted::Ignored;
    }
    let body = if inner.flags.contains(PacketFlags::is_compressed()) {
        match compression::decompress(inner.payload.as_slice()) {
            Ok(d) => d,
            Err(_) => return Decrypted::DecompressFailed,
        }
    } else {
        copy_opt(&inner.payload)
    };
    let parsed = BitchatMessage::from_bytes(body.as_slice());
    proof {
        assert forall|m: protocol::MessageView|
            #![trigger protocol::message_bytes(m)]
            protocol::message_wf(m) && protocol::message_bytes(m) == body@ implies protocol::parse_message(body@)
            == Ok::<protocol::MessageView, Seq<char>>(m) by {
            assert(protocol::message_bytes(m) + Seq::<u8>::empty() =~= body@);
        }
    }
    match parsed {
        Ok(m) => if seen_contains(seen, &m.id) {
            Decrypted::Ignored
        } else {
            Decrypted::Delivered(m, inner)
        },
        Err(_) => Decrypted::Ignored,
    }
}

/// A copy of `p` with its TTL lowered by one (wrapping at zero).
fn relay_copy(p: &BitchatPacket) -> (r: BitchatPacket)
    ensures
        r@ == relayed(p@),
{
    BitchatPacket {
        version: p.version,
        packet_type: p.packet_type,
        ttl: p.ttl.wrapping_sub(1),
        timestamp: p.timestamp,
        flags: p.flags,
        sender_id: p.sender_id,
        recipient_id: p.recipient_id,
        payload: copy_opt(&p.payload),
        signature: p.signature,
    }
}

fn find_buffer(bufs: &Vec<ReassemblyBuffer>, id: &[u8; 16]) -> (r: Option<usize>)
    ensures
        r matches Some(j) ==> j < bufs@.len() && bufs@[j as int].id@ == id@,
        r is None ==> forall|j: int| 0 <= j < bufs@.len() ==> bufs@[j].id@ != id@,
{
    let mut i: usize = 0;
    while i < bufs.len()
        invariant
            i <= bufs@.len(),
            forall|j: int| 0 <= j < i ==> bufs@[j].id@ != id@,
        decreases bufs@.len() - i,
    {
        if same_bytes16(&bufs[i].id, id) {
            return Some(i);
        }
        i = i + 1;
    }
    None
}

fn find_chunk(chunks: &Vec<(u16, Vec<u8>)>, index: u16) -> (r: Option<usize>)
    ensures
        r matches Some(k) ==> k < chunks@.len() && chunks@[k as int].0 == index,
        r is None ==> forall|k: int| 0 <= k < chunks@.len() ==> chunks@[k].0 != index,
{
    let mut i: usize = 0;
    while i < chunks.len()
        invariant
            i <= chunks@.len(),
            forall|k: int| 0 <= k < i ==> chunks@[k].0 != index,
        decreases chunks@.len() - i,
    {
        if chunks[i].0 == index {
            return Some(i);
        }
        i = i + 1;
    }
    None
}

/// The chunks of indices `0..count`, joined in index order, or `None` when one
/// is missing.
fn assemble(chunks: &Vec<(u16, Vec<u8>)>, count: u16) -> (r: Option<Vec<u8>>)
    requires
        chunks_distinct(chunks@.map_values(|c: (u16, Vec<u8>)| (c.0, c.1@))),
    ensures
        opt_vec_view(r) == joined_chunks(chunks@.map_values(|c: (u16, Vec<u8>)| (c.0, c.1@)), count as int),
{
    let ghost cs = chunks@.map_values(|c: (u16, Vec<u8>)| (c.0, c.1@));
    let mut full: Vec<u8> = Vec::new();
    let mut i: u16 = 0;
    while i < count
        invariant
            i <= count,
            cs == chunks@.map_values(|c: (u16, Vec<u8>)| (c.0, c.1@)),
            chunks_distinct(cs),
            joined_chunks(cs, i as int) == Some(full@),
        decreases count - i,
    {
        match find_chunk(chunks, i) {
            Some(k) => {
                proof {
                    assert(cs[k as int].0 == i);
                    let c = choose|c: int| 0 <= c < cs.len() && cs[c].0 == i;
                    if c != k {
                        if c < k {
                            assert(cs[c].0 != cs[k as int].0);
                        } else {
                            assert(cs[k as int].0 != cs[c].0);
                        }
                    }
                    assert(chunk_at(cs, i as int) == Some(chunks@[k as int].1@));
                }
                crate::bytes::extend_all(&mut full, chunks[k].1.as_slice());
            },
            None => {
                proof {
                    assert(chunk_at(cs, i as int) is None) by {
                        if exists|j: int| 0 <= j < cs.len() && cs[j].0 == i {
                            let j = choose|j: int| 0 <= j < cs.len() && cs[j].0 == i;
                            assert(chunks@[j].0 == cs[j].0);
                        }
                    }
                    lemma_joined_missing(cs, i + 1, count as int);
                }
                return None;
            },
        }
        i = i + 1;
    }
    Some(full)
}

proof fn lemma_remove_distinct(bs: Seq<(Seq<u8>, Seq<(u16, Seq<u8>)>)>, pos: int)
    requires
        buffers_distinct(bs),
        0 <= pos < bs.len(),
    ensures
        buffers_distinct(bs.remove(pos)),
{
    let r = bs.remove(pos);
    assert forall|i: int, j: int| 0 <= i < j < r.len() implies r[i].0 != r[j].0 by {
        let i2 = if i < pos { i } else { i + 1 };
        let j2 = if j < pos { j } else { j + 1 };
        assert(r[i] == bs[i2] && r[j] == bs[j2]);
    }
    assert forall|i: int| 0 <= i < r.len() implies chunks_distinct(#[trigger] r[i].1) by {
        let i2 = if i < pos { i } else { i + 1 };
        assert(r[i] == bs[i2]);
    }
}

/// Recording a fragment keeps buffer ids and chunk indices unique.
proof fn lemma_step_distinct(bs: Seq<(Seq<u8>, Seq<(u16, Seq<u8>)>)>, f: protocol::FragmentView)
    requires
        buffers_distinct(bs),
    ensures
        ({
            let j = buffer_pos(bs, f.id);
            let cs = if j >= 0 {
                chunks_insert(bs[j].1, f.index, f.data)
            } else {
                seq![(f.index, f.data)]
            };
            let bs1 = if j >= 0 {
                bs.update(j, (f.id, cs))
            } else {
                bs.push((f.id, cs))
            };
            buffers_distinct(bs1)
        }),
{
    let j = buffer_pos(bs, f.id);
    if j >= 0 {
        assert(0 <= j < bs.len() && bs[j].0 == f.id);
        let old_cs = bs[j].1;
        assert(chunks_distinct(old_cs));
        let cs = chunks_insert(old_cs, f.index, f.data);
        if exists|c: int| 0 <= c < old_cs.len() && old_cs[c].0 == f.index {
            let k = choose|c: int| 0 <= c < old_cs.len() && old_cs[c].0 == f.index;
            assert(cs == old_cs.update(k, (f.index, f.data)));
            assert forall|a: int, b: int| 0 <= a < b < cs.len() implies cs[a].0 != cs[b].0 by {
                assert(cs[a].0 == old_cs[a].0);
                assert(cs[b].0 == old_cs[b].0);
            }
        } else {
            assert(cs == old_cs.push((f.index, f.data)));
            assert forall|a: int, b: int| 0 <= a < b < cs.len() implies cs[a].0 != cs[b].0 by {
                if b == old_cs.len() {
                    assert(cs[a] == old_cs[a]);
                } else {
                    assert(cs[a] == old_cs[a] && cs[b] == old_cs[b]);
                }
            }
        }
        let bs1 = bs.update(j, (f.id, cs));
        assert forall|a: int| 0 <= a < bs1.len() implies chunks_distinct(#[trigger] bs1[a].1) by {
            if a != j {
                assert(bs1[a] == bs[a]);
            }
        }
        assert forall|a: int, b: int| 0 <= a < b < bs1.len() implies bs1[a].0 != bs1[b].0 by {
            assert(bs1[a].0 == bs[a].0 && bs1[b].0 == bs[b].0);
        }
    } else {
        assert(!exists|c: int| 0 <= c < bs.len() && bs[c].0 == f.id);
        let cs = seq![(f.index, f.data)];
        let bs1 = bs.push((f.id, cs));
        assert forall|a: int| 0 <= a < bs1.len() implies chunks_distinct(#[trigger] bs1[a].1) by {
            if a < bs.len() {
                assert(bs1[a] == bs[a]);
            }
        }
        assert forall|a: int, b: int| 0 <= a < b < bs1.len() implies bs1[a].0 != bs1[b].0 by {
            assert(bs1[a] == bs[a]);
            if b < bs.len() {
                assert(bs1[b] == bs[b]);
            }
        }
    }
}

/// Records a fragment. Returns whether its message is complete (the buffer is
/// then dropped) and, when complete with every index present, the joined
/// payload.
fn record_fragment(bufs: &mut Vec<ReassemblyBuffer>, fragment: FragmentPacket) -> (r: (bool, Option<Vec<u8>>))
    requires
        buffers_distinct(buffers_view(old(bufs)@)),
    ensures
        buffers_view(final(bufs)@) == fragment_step(buffers_view(old(bufs)@), fragment@).0,
        r.0 == fragment_step(buffers_view(old(bufs)@), fragment@).1,
        opt_vec_view(r.1) == fragment_payload(buffers_view(old(bufs)@), fragment@),
        buffers_distinct(buffers_view(final(bufs)@)),
{
    let ghost bs = buffers_view(bufs@);
    let ghost f = fragment@;
    let index = fragment.index;
    let count = fragment.count;
    let pos: usize = match find_buffer(bufs, &fragment.id) {
        Some(j) => {
            proof {
                assert(bs[j as int].0 == f.id);
                assert(buffer_pos(bs, f.id) == j) by {
                    let c = choose|c: int| 0 <= c < bs.len() && bs[c].0 == f.id;
                    assert(bs[c].0 == f.id);
                    if c != j {
                        if c < j {
                            assert(bs[c].0 != bs[j as int].0);
                        } else {
                            assert(bs[j as int].0 != bs[c].0);
                        }
                    }
                }
            }
            let mut b = bufs.remove(j);
            let ghost old_cs = buffer_view(b).1;
            proof {
                assert(old_cs == bs[j as int].1);
                assert(chunks_distinct(old_cs));
            }
            match find_chunk(&b.chunks, index) {
                Some(k) => {
                    proof {
                        assert(old_cs[k as int].0 == index);
                        let c = choose|c: int| 0 <= c < old_cs.len() && old_cs[c].0 == index;
                        assert(old_cs[c].0 == index);
                        if c != k {
                            if c < k {
                                assert(old_cs[c].0 != old_cs[k as int].0);
                            } else {
                                assert(old_cs[k as int].0 != old_cs[c].0);
                            }
                        }
                    }
                    b.chunks.set(k, (index, fragment.data));
                    proof {
                        let new_cs = buffer_view(b).1;
                        assert(new_cs =~= chunks_insert(old_cs, f.index, f.data));
                    }
                },
                None => {
                    proof {
                        assert forall|c: int| 0 <= c < old_cs.len() implies old_cs[c].0 != index by {
                            assert(old_cs[c].0 == b.chunks@[c].0);
                        }
                    }
                    b.chunks.push((index, fragment.data));
                    proof {
                        let new_cs = buffer_view(b).1;
                        assert(new_cs =~= chunks_insert(old_cs, f.index, f.data));
                    }
                },
            }
            bufs.insert(j, b);
            proof {
                assert(buffers_view(bufs@) =~= bs.update(j as int, (f.id, chunks_insert(old_cs, f.index, f.data))));
            }
            j
        },
        None => {
            proof {
                assert(buffer_pos(bs, f.id) == -1) by {
                    if exists|c: int| 0 <= c < bs.len() && bs[c].0 == f.id {
                        let c = choose|c: int| 0 <= c < bs.len() && bs[c].0 == f.id;
                        assert(bufs@[c].id@ == bs[c].0);
                    }
                }
            }
            let mut chunks: Vec<(u16, Vec<u8>)> = Vec::new();
            chunks.push((index, fragment.data));
            let nb = ReassemblyBuffer { id: fragment.id, chunks };
            proof {
                assert(buffer_view(nb).1 =~= seq![(f.index, f.data)]);
            }
            bufs.push(nb);
            proof {
                assert(buffers_view(bufs@) =~= bs.push((f.id, seq![(f.index, f.data)])));
            }
            bufs.len() - 1
        },
    };
    let ghost bs1 = buffers_view(bufs@);
    proof {
        let j = buffer_pos(bs, f.id);
        let cs = if j >= 0 {
            chunks_insert(bs[j].1, f.index, f.data)
        } else {
            seq![(f.index, f.data)]
        };
        lemma_step_distinct(bs, f);
        assert(bs1[pos as int].1 == cs);
        assert(bs1[pos as int].1.len() == bufs@[pos as int].chunks@.len());
    }
    if bufs[pos].chunks.len() == count as usize {
        let assembled = assemble(&bufs[pos].chunks, count);
        bufs.remove(pos);
        proof {
            assert(buffers_view(bufs@) =~= bs1.remove(pos as int));
            lemma_remove_distinct(bs1, pos as int);
        }
        (true, assembled)
    } else {
        (false, None)
    }
}

/// An optional packet as plain values.
pub open spec fn opt_packet_view(o: Option<BitchatPacket>) -> Option<PacketView> {
    match o {
        Some(p) => Some(p@),
        None => None,
    }
}

/// What a connected peer's packet does: an announcement updates the peer; a
/// plain or encrypted chat message may be delivered (and an encrypted one
/// relayed); a fragment is recorded, and completing its message leaves the
/// peer half-handled.
pub open spec fn connected_effect(
    old_peer: PeerInfo,
    old_state: PeerState,
    new_peer: PeerInfo,
    new_state: PeerState,
    p: PacketView,
    old_seen: Seq<Seq<u8>>,
    new_seen: Seq<Seq<u8>>,
    old_bufs: Seq<(Seq<u8>, Seq<(u16, Seq<u8>)>)>,
    new_bufs: Seq<(Seq<u8>, Seq<(u16, Seq<u8>)>)>,
    acts: Seq<ActionView>,
    relay: Option<PacketView>,
) -> bool {
    if p.packet_type == MessageType::Announce {
        &&& new_peer == announce_update(old_peer, p.payload)
        &&& new_state == old_state
        &&& new_seen == old_seen
        &&& new_bufs == old_bufs
        &&& acts.len() == 0
        &&& relay is None
    } else if p.packet_type == MessageType::Message {
        &&& new_peer == old_peer
        &&& new_state == old_state
        &&& new_bufs == old_bufs
        &&& relay is None
        &&& plain_message_effect(old_peer, p, old_seen, new_seen, acts)
    } else if p.packet_type == MessageType::NoiseEncrypted {
        &&& new_peer == old_peer
        &&& new_bufs == old_bufs
        &&& encrypted_effect(old_peer, old_state, new_state, p, old_seen, new_seen, acts, relay)
    } else if p.packet_type == MessageType::Fragment {
        &&& new_peer == old_peer
        &&& new_seen == old_seen
        &&& acts.len() == 0
        &&& relay is None
        &&& match protocol::parse_fragment(p.payload) {
            Err(_) => new_state == old_state && new_bufs == old_bufs,
            Ok(f) => new_bufs == fragment_step(old_bufs, f).0 && if fragment_step(old_bufs, f).1 {
                new_state is Transitioning
            } else {
                new_state == old_state
            },
        }
    } else {
        &&& new_peer == old_peer
        &&& new_state == old_state
        &&& new_seen == old_seen
        &&& new_bufs == old_bufs
        &&& acts.len() == 0
        &&& relay is None
    }
}

/// How handling a connected peer's packet ended.
enum ConnectedStep {
    /// The peer stays connected with this session; maybe a packet to relay.
    Stay(NoiseSession, Option<BitchatPacket>),
    /// Handling stopped half-way.
    Stop,
    /// A fragmented message was completed with these bytes.
    Reassembled(Vec<u8>),
}

spec fn step_state(s: ConnectedStep) -> PeerState {
    match s {
        ConnectedStep::Stay(n, _) => PeerState::Connected { noise: n },
        _ => PeerState::Transitioning,
    }
}

spec fn step_relay(s: ConnectedStep) -> Option<PacketView> {
    match s {
        ConnectedStep::Stay(_, r) => opt_packet_view(r),
        _ => None,
    }
}

fn on_connected(
    peer: &mut Peer,
    noise: NoiseSession,
    packet: &BitchatPacket,
    seen: &mut Vec<[u8; 16]>,
    bufs: &mut Vec<ReassemblyBuffer>,
    actions: &mut Vec<NetworkAction>,
) -> (step: ConnectedStep)
    requires
        noise.in_transport(),
        noise.ours(),
        buffers_distinct(buffers_view(old(bufs)@)),
    ensures
        final(actions)@.len() >= old(actions)@.len(),
        forall|k: int| 0 <= k < old(actions)@.len() ==> final(actions)@[k] == old(actions)@[k],
        final(peer).state == old(peer).state,
        final(peer).id == old(peer).id,
        buffers_distinct(buffers_view(final(bufs)@)),
        state_wf(step_state(step)),
        connected_effect(
            old(peer).info(),
            PeerState::Connected { noise },
            final(peer).info(),
            step_state(step),
            packet@,
            seen_view(old(seen)@),
            seen_view(final(seen)@),
            buffers_view(old(bufs)@),
            buffers_view(final(bufs)@),
            actions_view(final(actions)@).subrange(old(actions)@.len() as int, final(actions)@.len() as int),
            step_relay(step),
        ),
{
    let ghost start = actions@.len();
    let mut noise = noise;
    match packet.packet_type {
        MessageType::Announce => {
            apply_announce(peer, packet.payload.as_slice());
            ConnectedStep::Stay(noise, None)
        },
        MessageType::Message => {
            plain_message(peer, packet, seen, actions);
            ConnectedStep::Stay(noise, None)
        },
        MessageType::NoiseEncrypted => {
            let ghost before = noise;
            let decrypted = noise.decrypt(packet.payload.as_slice());
            proof {
                if decrypted is Ok {
                    assert(crate::noise::opens_next(before, packet.payload@, decrypted->Ok_0@));
                }
                if opens(before, packet@.payload) {
                    assert(crate::noise::opens_next(before, packet.payload@, opened(before, packet@.payload)));
                }
            }
            match decrypted {
                Ok(plaintext) => {
                    match classify_plaintext(plaintext.as_slice(), seen) {
                        Decrypted::Ignored => ConnectedStep::Stay(noise, None),
                        Decrypted::DecompressFailed => ConnectedStep::Stop,
                        Decrypted::Delivered(message, inner) => {
                            let ghost old_seen = seen_view(seen@);
                            let fresh = seen_insert(seen, message.id);
                            actions.push(
                                NetworkAction::Event(
                                    NetworkEvent::NewMessage {
                                        sender_id: peer.id,
                                        sender_name: peer.name.clone(),
                                        content: message.content,
                                        timestamp: inner.timestamp,
                                    },
                                ),
                            );
                            let relay = if inner.ttl > 1 {
                                Some(relay_copy(packet))
                            } else {
                                None
                            };
                            proof {
                                let seg = actions_view(actions@).subrange(start as int, actions@.len() as int);
                                assert(seg[0] == actions@[start as int]@);
                                assert(seg =~= seq![seg[0]]);
                                let pt = plaintext@;
                                assert(decrypted_delivery(pt, old_seen) is Delivered);
                            }
                            ConnectedStep::Stay(noise, relay)
                        },
                    }
                },
                Err(_) => ConnectedStep::Stay(noise, None),
            }
        },
        MessageType::Fragment => {
            match FragmentPacket::from_bytes(packet.payload.as_slice()) {
                Ok(fragment) => {
                    let (complete, assembled) = record_fragment(bufs, fragment);
                    if complete {
                        match assembled {
                            Some(full_payload) => ConnectedStep::Reassembled(full_payload),
                            None => ConnectedStep::Stop,
                        }
                    } else {
                        ConnectedStep::Stay(noise, None)
                    }
                },
                Err(_) => ConnectedStep::Stay(noise, None),
            }
        },
        _ => ConnectedStep::Stay(noise, None),
    }
}

/// Every handler output leaves everything unchanged.
pub open spec fn unchanged(
    old_peer: PeerInfo,
    old_state: PeerState,
    new_peer: PeerInfo,
    new_state: PeerState,
    old_seen: Seq<Seq<u8>>,
    new_seen: Seq<Seq<u8>>,
    old_bufs: Seq<(Seq<u8>, Seq<(u16, Seq<u8>)>)>,
    new_bufs: Seq<(Seq<u8>, Seq<(u16, Seq<u8>)>)>,
    acts: Seq<ActionView>,
    relay: Option<PacketView>,
) -> bool {
    &&& new_peer == old_peer
    &&& new_state == old_state
    &&& new_seen == old_seen
    &&& new_bufs == old_bufs
    &&& acts.len() == 0
    &&& relay is None
}

/// What bytes `data` from a peer do to the peer, the delivered ids and the
/// reassembly buffers, which actions they emit and what they ask to relay.
/// Undecodable bytes, and any bytes from a half-handled peer, change nothing.
pub open spec fn peer_data_effect(
    old_peer: PeerInfo,
    old_state: PeerState,
    new_peer: PeerInfo,
    new_state: PeerState,
    data: Seq<u8>,
    sender: Seq<u8>,
    old_seen: Seq<Seq<u8>>,
    new_seen: Seq<Seq<u8>>,
    old_bufs: Seq<(Seq<u8>, Seq<(u16, Seq<u8>)>)>,
    new_bufs: Seq<(Seq<u8>, Seq<(u16, Seq<u8>)>)>,
    acts: Seq<ActionView>,
    relay: Option<PacketView>,
) -> bool {
    match protocol::parse_packet(data) {
        Err(_) => unchanged(old_peer, old_state, new_peer, new_state, old_seen, new_seen, old_bufs, new_bufs, acts, relay),
        Ok(p) => match old_state {
            PeerState::Transitioning => unchanged(
                old_peer,
                old_state,
                new_peer,
                new_state,
                old_seen,
                new_seen,
                old_bufs,
                new_bufs,
                acts,
                relay,
            ),
            PeerState::Handshaking { .. } => {
                &&& handshaking_effect(old_peer, old_state, new_peer, new_state, p, sender, acts)
                &&& new_seen == old_seen
                &&& new_bufs == old_bufs
                &&& relay is None
            },
            PeerState::Connected { .. } => connected_effect(
                old_peer,
                old_state,
                new_peer,
                new_state,
                p,
                old_seen,
                new_seen,
                old_bufs,
                new_bufs,
                acts,
                relay,
            ),
            PeerState::Discovered => {
                &&& discovered_effect(old_peer, new_peer, new_state, p, sender, acts)
                &&& new_seen == old_seen
                &&& new_bufs == old_bufs
                &&& relay is None
            },
        },
    }
}

/// The measure that bounds handling reassembled data again: a half-handled
/// peer ranks lowest.
pub open spec fn peer_rank(p: Peer) -> int {
    if p.state is Transitioning {
        0
    } else {
        1
    }
}

impl NetworkManager {
    /// Handles bytes received from `peer`; returns the packet to relay to the
    /// other connected peers, if any.
    fn handle_peer_data(
        peer: &mut Peer,
        data: &[u8],
        identity: &UserIdentity,
        seen: &mut Vec<[u8; 16]>,
        bufs: &mut Vec<ReassemblyBuffer>,
        actions: &mut Vec<NetworkAction>,
    ) -> (relay: Option<BitchatPacket>)
        requires
            !protocol::overruns_header(data@),
            state_wf(old(peer).state),
            buffers_distinct(buffers_view(old(bufs)@)),
        ensures
            final(actions)@.len() >= old(actions)@.len(),
            forall|k: int| 0 <= k < old(actions)@.len() ==> final(actions)@[k] == old(actions)@[k],
            state_wf(final(peer).state),
            final(peer).id == old(peer).id,
            buffers_distinct(buffers_view(final(bufs)@)),
            peer_data_effect(
                old(peer).info(),
                old(peer).state,
                final(peer).info(),
                final(peer).state,
                data@,
                bitchat_id_of(identity.noise_keypair.public@),
                seen_view(old(seen)@),
                seen_view(final(seen)@),
                buffers_view(old(bufs)@),
                buffers_view(final(bufs)@),
                actions_view(final(actions)@).subrange(old(actions)@.len() as int, final(actions)@.len() as int),
                opt_packet_view(relay),
            ),
        decreases peer_rank(*old(peer)),
    {
        let ghost start = actions@.len();
        let packet = match BitchatPacket::from_bytes(data) {
            Ok(p) => p,
            Err(_) => {
                assert(actions_view(actions@).subrange(start as int, actions@.len() as int).len() == 0);
                return None;
            },
        };
        let self_bitchat_id = derive_bitchat_id(identity.noise_keypair.public.as_slice());
        let mut old_state = PeerState::Transitioning;
        std::mem::swap(&mut old_state, &mut peer.state);
        let new_state = match old_state {
            PeerState::Handshaking { noise } => on_handshaking(peer, noise, &packet, self_bitchat_id, actions),
            PeerState::Connected { noise } => {
                match on_connected(peer, noise, &packet, seen, bufs, actions) {
                    ConnectedStep::Stay(noise, relay) => {
                        peer.state = PeerState::Connected { noise };
                        return relay;
                    },
                    ConnectedStep::Stop => {
                        return None;
                    },
                    ConnectedStep::Reassembled(full_payload) => {
                        if !protocol::header_overrun(full_payload.as_slice()) {
                            let ghost mid = actions@.len();
                            let _ = Self::handle_peer_data(peer, full_payload.as_slice(), identity, seen, bufs, actions);
                            proof {
                                assert(actions@.len() == mid);
                            }
                        }
                        return None;
                    },
                }
            },
            PeerState::Discovered => on_discovered(peer, &packet, self_bitchat_id, actions),
            PeerState::Transitioning => PeerState::Transitioning,
        };
        peer.state = new_state;
        assert(actions_view(actions@).subrange(start as int, actions@.len() as int).len() == actions@.len() - start);
        None
    }
}

/// No chat message is reported among `acts`.
pub open spec fn no_reports(acts: Seq<ActionView>) -> bool {
    forall|k: int| 0 <= k < acts.len() ==> !(#[trigger] acts[k] is NewMessage)
}

/// What one packet does to the delivered ids: nothing, and then no chat
/// message is reported; or one id that was not there is appended and exactly
/// one chat message is reported.
pub open spec fn delivery_step(old_seen: Seq<Seq<u8>>, new_seen: Seq<Seq<u8>>, acts: Seq<ActionView>) -> bool {
    ||| new_seen == old_seen && no_reports(acts)
    ||| exists|id: Seq<u8>|
        #![trigger old_seen.push(id)]
        !old_seen.contains(id) && new_seen == old_seen.push(id) && acts.len() == 1
            && acts[0] is NewMessage
}

/// A message is delivered at most once, and never reported without being
/// recorded: bytes from a peer add at most one id to the delivered ids, only an
/// id not delivered before, and only together with the single report of that
/// message; when they add none, they report none.
pub proof fn lemma_peer_data_delivers_once(
    old_peer: PeerInfo,
    old_state: PeerState,
    new_peer: PeerInfo,
    new_state: PeerState,
    data: Seq<u8>,
    sender: Seq<u8>,
    old_seen: Seq<Seq<u8>>,
    new_seen: Seq<Seq<u8>>,
    old_bufs: Seq<(Seq<u8>, Seq<(u16, Seq<u8>)>)>,
    new_bufs: Seq<(Seq<u8>, Seq<(u16, Seq<u8>)>)>,
    acts: Seq<ActionView>,
    relay: Option<PacketView>,
)
    requires
        peer_data_effect(
            old_peer,
            old_state,
            new_peer,
            new_state,
            data,
            sender,
            old_seen,
            new_seen,
            old_bufs,
            new_bufs,
            acts,
            relay,
        ),
    ensures
        delivery_step(old_seen, new_seen, acts),
{
    if let Ok(p) = protocol::parse_packet(data) {
        let id = old_peer.id;
        if old_state is Handshaking && p.packet_type == MessageType::NoiseHandshake {
            let (n, o) = choose|n: NoiseSession, o: Option<Option<Seq<u8>>>|
                #![trigger handshake_step_effect(id, n, o, sender, new_state, acts)]
                (o == Some(None::<Seq<u8>>) ==> n.in_transport()) && handshake_step_effect(
                    id,
                    n,
                    o,
                    sender,
                    new_state,
                    acts,
                );
            assert forall|k: int| 0 <= k < acts.len() implies !(#[trigger] acts[k] is NewMessage) by {
                if let Some(Some(r)) = o {
                    assert(sends_handshake_payload(acts[0], id, sender, r));
                }
            }
        }
        if old_state is Discovered {
            if p.packet_type == MessageType::NoiseHandshake {
                let (n, o) = choose|n: NoiseSession, o: Option<Option<Seq<u8>>>|
                    #![trigger responder_step_effect(id, n, o, sender, new_state, acts)]
                    responder_step_effect(id, n, o, sender, new_state, acts);
                assert forall|k: int| 0 <= k < acts.len() implies !(#[trigger] acts[k] is NewMessage) by {
                    if let Some(Some(r)) = o {
                        assert(sends_handshake_payload(acts[0], id, sender, r));
                    }
                }
            } else if p.packet_type == MessageType::Announce || p.packet_type == MessageType::Message {
                assert(is_handshake_init_send(acts[0], id, sender));
                assert forall|k: int| 0 <= k < acts.len() implies !(#[trigger] acts[k] is NewMessage) by {}
            }
        }
        if old_state is Connected && new_seen != old_seen {
            if p.packet_type == MessageType::Message {
                if let Ok(m) = protocol::parse_message(p.payload) {
                    assert(new_seen == old_seen.push(m.id));
                }
            } else if p.packet_type == MessageType::NoiseEncrypted {
                let ses = session_in(old_state);
                if let Delivery::Delivered(m, inner) = decrypted_delivery(opened(ses, p.payload), old_seen) {
                    assert(new_seen == old_seen.push(m.id));
                }
            }
        }
    }
}

/// Appending an id that was not there keeps a list free of duplicates.
proof fn lemma_push_fresh_distinct(old_seen: Seq<Seq<u8>>, new_seen: Seq<Seq<u8>>, acts: Seq<ActionView>)
    requires
        old_seen.no_duplicates(),
        delivery_step(old_seen, new_seen, acts),
    ensures
        new_seen.no_duplicates(),
{
    if new_seen != old_seen {
        let id = choose|id: Seq<u8>|
            #![trigger old_seen.push(id)]
            !old_seen.contains(id) && new_seen == old_seen.push(id) && acts.len() == 1
                && acts[0] is NewMessage;
        assert forall|a: int, b: int| 0 <= a < new_seen.len() && 0 <= b < new_seen.len() && a != b implies new_seen[a] != new_seen[b] by {
            if a == old_seen.len() as int {
                assert(old_seen[b] == new_seen[b]);
            } else if b == old_seen.len() as int {
                assert(old_seen[a] == new_seen[a]);
            }
        }
    }
}

// ---------------------------------------------------------------------------
// Radio events
// ---------------------------------------------------------------------------

/// The position of the peer with id `id`, or -1.
pub open spec fn peer_index(peers: Seq<Peer>, id: PeerMapKey) -> int {
    if exists|j: int| 0 <= j < peers.len() && peers[j].id == id {
        choose|j: int| 0 <= j < peers.len() && peers[j].id == id
    } else {
        -1
    }
}

/// The announcement this node sends: a fixed nickname, its Noise public key
/// and its Ed25519 public key.
pub open spec fn own_announcement(identity: UserIdentity) -> protocol::AnnounceView {
    protocol::AnnounceView {
        nickname: "bitchat-rust-user"@,
        noise_public_key: identity.noise_keypair.public@,
        signing_public_key: identity.signing_keypair.keypair_bytes@.subrange(32, 64),
    }
}

/// `acts` relays `bytes` to every connected peer of `peers` other than `from`,
/// in order, each as `fragmented_send` makes it.
pub open spec fn relay_sends(
    peers: Seq<Peer>,
    from: PeerMapKey,
    bytes: Seq<u8>,
    sender: Seq<u8>,
    acts: Seq<ActionView>,
) -> bool
    decreases peers.len(),
{
    if peers.len() == 0 {
        acts.len() == 0
    } else {
        let last = peers.last();
        if last.id != from && last.state is Connected {
            exists|k: int|
                #![trigger acts.take(k)]
                0 <= k <= acts.len() && relay_sends(peers.drop_last(), from, bytes, sender, acts.take(k))
                    && fragmented_send(bytes, last.id, sender, acts.skip(k))
        } else {
            relay_sends(peers.drop_last(), from, bytes, sender, acts)
        }
    }
}

fn find_peer(peers: &Vec<Peer>, id: PeerMapKey) -> (r: Option<usize>)
    requires
        peers_distinct(peers@),
    ensures
        r matches Some(i) ==> i < peers@.len() && peers@[i as int].id == id && peer_index(peers@, id) == i,
        r is None ==> peer_index(peers@, id) == -1,
{
    let mut i: usize = 0;
    while i < peers.len()
        invariant
            i <= peers@.len(),
            peers_distinct(peers@),
            forall|j: int| 0 <= j < i ==> peers@[j].id != id,
        decreases peers@.len() - i,
    {
        if peers[i].id == id {
            proof {
                let c = choose|j: int| 0 <= j < peers@.len() && peers@[j].id == id;
                assert(peers@[c].id == id);
                if c != i {
                    if c < i {
                        assert(false);
                    } else {
                        assert(peers@[i as int].id != peers@[c].id);
                    }
                }
            }
            return Some(i);
        }
        i = i + 1;
    }
    None
}

impl NetworkManager {
    /// The announcement packet this node sends to a peer whose services were
    /// found.
    fn create_announcement_packet(&self) -> (p: BitchatPacket)
        requires
            self.spec_identity().wf(),
        ensures
            p@ == control_packet(
                MessageType::Announce,
                protocol::announce_bytes(own_announcement(self.spec_identity())),
                p.timestamp,
                bitchat_id_of(self.spec_identity().noise_keypair.public@),
            ),
    {
        let signing_public_key = match verifying_key_of(&self.identity.signing_keypair.keypair_bytes) {
            Some(v) => v,
            None => {
                proof {
                    assert(false);
                }
                [0u8; 32]
            },
        };
        proof {
            assert(signing_public_key@.subrange(0, 32) =~= signing_public_key@);
        }
        let announce_payload = AnnouncementPacket {
            nickname: String::from_str("bitchat-rust-user"),
            noise_public_key: copy_opt(&self.identity.noise_keypair.public),
            signing_public_key: copy_range(signing_public_key.as_slice(), 0, 32),
        };
        let payload_bytes = announce_payload.to_bytes();
        build_control_packet(MessageType::Announce, payload_bytes, self.self_bitchat_id())
    }

    /// Sends `packet` to every connected peer but `from`.
    fn relay_to_others(&self, packet: &BitchatPacket, from: PeerMapKey, actions: &mut Vec<NetworkAction>)
        ensures
            final(actions)@.len() >= old(actions)@.len(),
            forall|k: int| 0 <= k < old(actions)@.len() ==> final(actions)@[k] == old(actions)@[k],
            relay_sends(
                self.spec_peers(),
                from,
                protocol::packet_bytes(packet@),
                bitchat_id_of(self.spec_identity().noise_keypair.public@),
                actions_view(final(actions)@).subrange(old(actions)@.len() as int, final(actions)@.len() as int),
            ),
    {
        let ghost start = actions@.len();
        let ghost bytes = protocol::packet_bytes(packet@);
        let ghost sender = bitchat_id_of(self.spec_identity().noise_keypair.public@);
        let mut i: usize = 0;
        while i < self.peers.len()
            invariant
                i <= self.peers@.len(),
                start == old(actions)@.len(),
                actions@.len() >= start,
                forall|k: int| 0 <= k < start ==> actions@[k] == old(actions)@[k],
                bytes == protocol::packet_bytes(packet@),
                sender == bitchat_id_of(self.spec_identity().noise_keypair.public@),
                relay_sends(
                    self.peers@.take(i as int),
                    from,
                    bytes,
                    sender,
                    actions_view(actions@).subrange(start as int, actions@.len() as int),
                ),
            decreases self.peers@.len() - i,
        {
            let ghost before = actions@;
            let ghost prefix = self.peers@.take(i as int);
            assert(self.peers@.take(i + 1).drop_last() =~= prefix);
            assert(self.peers@.take(i + 1).last() == self.peers@[i as int]);
            let connected = match self.peers[i].state {
                PeerState::Connected { .. } => true,
                _ => false,
            };
            if self.peers[i].id != from && connected {
                self.send_packet_fragmented(relay_packet_copy(packet), self.peers[i].id, actions);
                proof {
                    let all = actions_view(actions@).subrange(start as int, actions@.len() as int);
                    let k = before.len() - start;
                    assert(all.take(k) =~= actions_view(before).subrange(start as int, before.len() as int));
                    assert(all.skip(k) =~= actions_view(actions@).subrange(before.len() as int, actions@.len() as int));
                    assert(relay_sends(self.peers@.take(i + 1), from, bytes, sender, all));
                }
            }
            i = i + 1;
        }
        assert(self.peers@.take(self.peers@.len() as int) =~= self.peers@);
    }
}

/// A copy of a packet, field for field.
fn relay_packet_copy(p: &BitchatPacket) -> (r: BitchatPacket)
    ensures
        r@ == p@,
{
    BitchatPacket {
        version: p.version,
        packet_type: p.packet_type,
        ttl: p.ttl,
        timestamp: p.timestamp,
        flags: p.flags,
        sender_id: p.sender_id,
        recipient_id: p.recipient_id,
        payload: copy_opt(&p.payload),
        signature: p.signature,
    }
}

/// The node's peers, delivered ids and buffers are as they were.
pub open spec fn same_state(old: NetworkManager, new: NetworkManager) -> bool {
    &&& new.spec_peers() == old.spec_peers()
    &&& new.spec_seen() == old.spec_seen()
    &&& new.spec_buffers() == old.spec_buffers()
}

/// What a radio event does to the node and which actions it emits.
///
/// A new peer is recorded and connected to; a peer whose services were found
/// is sent this node's announcement; a connection is reported; a
/// disconnection is reported and resets the peer to `Discovered`; data from a
/// known peer is handled as `peer_data_effect` says, and a packet it asks to
/// relay goes to every other connected peer.
pub open spec fn ble_event_effect(
    old: NetworkManager,
    new: NetworkManager,
    event: BleEvent,
    acts: Seq<ActionView>,
) -> bool {
    let self_id = bitchat_id_of(old.spec_identity().noise_keypair.public@);
    let peers = old.spec_peers();
    match event {
        BleEvent::Discovered { id, name } => if peer_index(peers, id) >= 0 {
            same_state(old, new) && acts.len() == 0
        } else {
            &&& new.spec_peers().len() == peers.len() + 1
            &&& new.spec_peers().take(peers.len() as int) == peers
            &&& new.spec_peers().last().info() == PeerInfo {
                id,
                name: name@,
                bitchat_id: None,
                noise_public_key: None,
                signing_public_key: None,
            }
            &&& new.spec_peers().last().state is Discovered
            &&& new.spec_seen() == old.spec_seen()
            &&& new.spec_buffers() == old.spec_buffers()
            &&& acts == seq![ActionView::PeerDiscovered(id, name@), ActionView::Connect(id)]
        },
        BleEvent::ServicesDiscovered(id) => {
            &&& same_state(old, new)
            &&& exists|ts: u64|
                #![trigger control_packet(MessageType::Announce, protocol::announce_bytes(own_announcement(old.spec_identity())), ts, self_id)]
                acts == seq![
                    ActionView::SendData(
                        id,
                        protocol::packet_bytes(
                            control_packet(
                                MessageType::Announce,
                                protocol::announce_bytes(own_announcement(old.spec_identity())),
                                ts,
                                self_id,
                            ),
                        ),
                    ),
                ]
        },
        BleEvent::Connected(id) => same_state(old, new) && acts == seq![ActionView::PeerConnected(id)],
        BleEvent::Disconnected(id) => {
            &&& new.spec_seen() == old.spec_seen()
            &&& new.spec_buffers() == old.spec_buffers()
            &&& acts == seq![ActionView::PeerDisconnected(id)]
            &&& new.spec_peers() == if peer_index(peers, id) >= 0 {
                peers.update(
                    peer_index(peers, id),
                    Peer { state: PeerState::Discovered, ..peers[peer_index(peers, id)] },
                )
            } else {
                peers
            }
        },
        BleEvent::DataReceived { sender, data } => {
            let i = peer_index(peers, sender);
            if i < 0 {
                same_state(old, new) && acts.len() == 0
            } else {
                &&& new.spec_peers().len() == peers.len()
                &&& forall|j: int| 0 <= j < peers.len() && j != i ==> new.spec_peers()[j] == peers[j]
                &&& exists|k: int, relay: Option<PacketView>|
                    0 <= k <= acts.len() && #[trigger] peer_data_effect(
                        peers[i].info(),
                        peers[i].state,
                        new.spec_peers()[i].info(),
                        new.spec_peers()[i].state,
                        data@,
                        self_id,
                        old.spec_seen(),
                        new.spec_seen(),
                        old.spec_buffers(),
                        new.spec_buffers(),
                        acts.take(k),
                        relay,
                    ) && match relay {
                        Some(rp) => relay_sends(
                            new.spec_peers(),
                            sender,
                            protocol::packet_bytes(rp),
                            self_id,
                            acts.skip(k),
                        ),
                        None => k == acts.len(),
                    }
            }
        },
    }
}

impl NetworkManager {
    /// True when a peer with this id is known.
    pub fn knows_peer(&self, id: PeerMapKey) -> (r: bool)
        requires
            self.wf(),
        ensures
            r == (peer_index(self.spec_peers(), id) >= 0),
    {
        find_peer(&self.peers, id).is_some()
    }

    /// Handles one radio event and returns the actions to perform, in order.
    /// Two inputs are left out: bytes from a known peer that overrun the packet
    /// header (`protocol::overruns_header`), which decoding would read past,
    /// and a peer's services being found when the identity's signing keypair is
    /// inconsistent, for which no announcement can be made.
    pub fn handle_ble_event(&mut self, event: BleEvent) -> (acts: Vec<NetworkAction>)
        requires
            old(self).wf(),
            event is ServicesDiscovered ==> old(self).spec_identity().wf(),
            event matches BleEvent::DataReceived { sender, data } ==> peer_index(
                old(self).spec_peers(),
                sender,
            ) >= 0 ==> !protocol::overruns_header(data@),
        ensures
            final(self).wf(),
            final(self).spec_identity() == old(self).spec_identity(),
            ble_event_effect(*old(self), *final(self), event, actions_view(acts@)),
    {
        let mut actions: Vec<NetworkAction> = Vec::new();
        let ghost old_self = *self;
        match event {
            BleEvent::Discovered { id, name } => {
                match find_peer(&self.peers, id) {
                    Some(_) => {},
                    None => {
                        let peer = Peer {
                            id,
                            name: name.clone(),
                            state: PeerState::Discovered,
                            bitchat_id: None,
                            noise_public_key: None,
                            signing_public_key: None,
                        };
                        self.peers.push(peer);
                        actions.push(NetworkAction::Event(NetworkEvent::PeerDiscovered { id, name }));
                        actions.push(NetworkAction::Ble(BleCommand::Connect(id)));
                        proof {
                            assert(self.peers@.take(old_self.peers@.len() as int) =~= old_self.peers@);
                            assert(actions_view(actions@) =~= seq![
                                ActionView::PeerDiscovered(id, name@),
                                ActionView::Connect(id),
                            ]);
                            assert forall|a: int, b: int| 0 <= a < b < self.peers@.len() implies self.peers@[a].id != self.peers@[b].id by {
                                if b == old_self.peers@.len() {
                                    assert(self.peers@[a] == old_self.peers@[a]);
                                    assert(peer_index(old_self.peers@, id) == -1);
                                    if self.peers@[a].id == id {
                                        assert(exists|j: int| 0 <= j < old_self.peers@.len() && old_self.peers@[j].id == id);
                                    }
                                }
                            }
                        }
                    },
                }
            },
            BleEvent::ServicesDiscovered(id) => {
                let packet = self.create_announcement_packet();
                let ghost ts = packet.timestamp;
                actions.push(NetworkAction::Ble(BleCommand::SendData { receiver: id, data: packet.to_bytes() }));
                proof {
                    let self_id = bitchat_id_of(old_self.spec_identity().noise_keypair.public@);
                    assert(actions_view(actions@) =~= seq![
                        ActionView::SendData(
                            id,
                            protocol::packet_bytes(
                                control_packet(
                                    MessageType::Announce,
                                    protocol::announce_bytes(own_announcement(old_self.spec_identity())),
                                    ts,
                                    self_id,
                                ),
                            ),
                        ),
                    ]);
                }
            },
            BleEvent::Connected(id) => {
                actions.push(NetworkAction::Event(NetworkEvent::PeerConnected(id)));
                assert(actions_view(actions@) =~= seq![ActionView::PeerConnected(id)]);
            },
            BleEvent::Disconnected(id) => {
                match find_peer(&self.peers, id) {
                    Some(i) => {
                        let mut peer = self.peers.remove(i);
                        peer.state = PeerState::Discovered;
                        self.peers.insert(i, peer);
                        proof {
                            assert(self.peers@ =~= old_self.peers@.update(
                                i as int,
                                Peer { state: PeerState::Discovered, ..old_self.peers@[i as int] },
                            ));
                            assert forall|a: int, b: int| 0 <= a < b < self.peers@.len() implies self.peers@[a].id != self.peers@[b].id by {
                                assert(self.peers@[a].id == old_self.peers@[a].id);
                                assert(self.peers@[b].id == old_self.peers@[b].id);
                            }
                            assert forall|a: int| 0 <= a < self.peers@.len() implies state_wf(#[trigger] self.peers@[a].state) by {
                                if a != i {
                                    assert(self.peers@[a] == old_self.peers@[a]);
                                }
                            }
                        }
                    },
                    None => {},
                }
                actions.push(NetworkAction::Event(NetworkEvent::PeerDisconnected(id)));
                assert(actions_view(actions@) =~= seq![ActionView::PeerDisconnected(id)]);
            },
            BleEvent::DataReceived { sender, data } => {
                match find_peer(&self.peers, sender) {
                    Some(i) => {
                        let mut peer = self.peers.remove(i);
                        proof {
                            assert(peer == old_self.peers@[i as int]);
                            assert(state_wf(peer.state));
                        }
                        let relay_packet = Self::handle_peer_data(
                            &mut peer,
                            data.as_slice(),
                            &self.identity,
                            &mut self.seen_messages,
                            &mut self.reassembly_buffers,
                            &mut actions,
                        );
                        let ghost k = actions@.len();
                        let ghost mid_actions = actions@;
                        let ghost relay_view = opt_packet_view(relay_packet);
                        self.peers.insert(i, peer);
                        proof {
                            assert forall|a: int, b: int| 0 <= a < b < self.peers@.len() implies self.peers@[a].id != self.peers@[b].id by {
                                if a != i {
                                    assert(self.peers@[a] == old_self.peers@[a]);
                                }
                                if b != i {
                                    assert(self.peers@[b] == old_self.peers@[b]);
                                }
                                assert(old_self.peers@[a].id != old_self.peers@[b].id);
                            }
                            assert forall|a: int| 0 <= a < self.peers@.len() implies state_wf(#[trigger] self.peers@[a].state) by {
                                if a != i {
                                    assert(self.peers@[a] == old_self.peers@[a]);
                                }
                            }
                        }
                        match relay_packet {
                            Some(packet_to_relay) => {
                                self.relay_to_others(&packet_to_relay, sender, &mut actions);
                            },
                            None => {},
                        }
                        proof {
                            let all = actions_view(actions@);
                            assert(all.take(k as int) =~= actions_view(mid_actions).subrange(0, k as int));
                            assert(all.skip(k as int) =~= actions_view(actions@).subrange(k as int, actions@.len() as int));
                            assert(self.peers@[i as int] == peer);
                            assert(old_self.peers@[i as int] == old_self.spec_peers()[peer_index(old_self.spec_peers(), sender)]);
                            assert(peer_data_effect(
                                old_self.spec_peers()[i as int].info(),
                                old_self.spec_peers()[i as int].state,
                                self.spec_peers()[i as int].info(),
                                self.spec_peers()[i as int].state,
                                data@,
                                bitchat_id_of(old_self.spec_identity().noise_keypair.public@),
                                old_self.spec_seen(),
                                self.spec_seen(),
                                old_self.spec_buffers(),
                                self.spec_buffers(),
                                all.take(k as int),
                                relay_view,
                            ));
                            lemma_peer_data_delivers_once(
                                old_self.spec_peers()[i as int].info(),
                                old_self.spec_peers()[i as int].state,
                                self.spec_peers()[i as int].info(),
                                self.spec_peers()[i as int].state,
                                data@,
                                bitchat_id_of(old_self.spec_identity().noise_keypair.public@),
                                old_self.spec_seen(),
                                self.spec_seen(),
                                old_self.spec_buffers(),
                                self.spec_buffers(),
                                all.take(k as int),
                                relay_view,
                            );
                            lemma_push_fresh_distinct(old_self.spec_seen(), self.spec_seen(), all.take(k as int));
                        }
                    },
                    None => {},
                }
            },
        }
        actions
    }
}

/// No message id is delivered twice: the delivered ids of a well-formed node
/// are distinct.
pub proof fn lemma_delivered_ids_distinct(m: NetworkManager)
    requires
        m.wf(),
    ensures
        m.spec_seen().no_duplicates(),
{
}

/// A radio event never makes the node forget a delivered id: the ids
/// delivered before it stay, in order, at the front of the list.
pub proof fn lemma_seen_only_grows(old: NetworkManager, new: NetworkManager, event: BleEvent, acts: Seq<ActionView>)
    requires
        ble_event_effect(old, new, event, acts),
    ensures
        new.spec_seen().len() >= old.spec_seen().len(),
        new.spec_seen().take(old.spec_seen().len() as int) == old.spec_seen(),
{
    let o = old.spec_seen();
    let n = new.spec_seen();
    if let BleEvent::DataReceived { sender, data } = event {
        let i = peer_index(old.spec_peers(), sender);
        if i >= 0 {
            let self_id = bitchat_id_of(old.spec_identity().noise_keypair.public@);
            let peers = old.spec_peers();
            let (k, relay) = choose|k: int, relay: Option<PacketView>|
                0 <= k <= acts.len() && #[trigger] peer_data_effect(
                    peers[i].info(),
                    peers[i].state,
                    new.spec_peers()[i].info(),
                    new.spec_peers()[i].state,
                    data@,
                    self_id,
                    o,
                    n,
                    old.spec_buffers(),
                    new.spec_buffers(),
                    acts.take(k),
                    relay,
                ) && match relay {
                    Some(rp) => relay_sends(
                        new.spec_peers(),
                        sender,
                        protocol::packet_bytes(rp),
                        self_id,
                        acts.skip(k),
                    ),
                    None => k == acts.len(),
                };
            lemma_peer_data_delivers_once(
                peers[i].info(),
                peers[i].state,
                new.spec_peers()[i].info(),
                new.spec_peers()[i].state,
                data@,
                self_id,
                o,
                n,
                old.spec_buffers(),
                new.spec_buffers(),
                acts.take(k),
                relay,
            );
            if n != o {
                let id = choose|id: Seq<u8>|
                    #![trigger o.push(id)]
                    !o.contains(id) && n == o.push(id) && acts.take(k).len() == 1
                        && acts.take(k)[0] is NewMessage;
                assert(n.take(o.len() as int) =~= o);
            }
        }
    }
    assert(o.take(o.len() as int) =~= o);
}

/// Sending bytes reports no chat message.
proof fn lemma_fragmented_send_no_reports(bytes: Seq<u8>, receiver: PeerMapKey, sender: Seq<u8>, acts: Seq<ActionView>)
    requires
        fragmented_send(bytes, receiver, sender, acts),
    ensures
        no_reports(acts),
{
    if bytes.len() > 480 {
        let (fid, stamps) = choose|fid: Seq<u8>, stamps: Seq<u64>|
            fragments_sent(bytes, receiver, sender, acts, fid, stamps);
        assert forall|k: int| 0 <= k < acts.len() implies !(#[trigger] acts[k] is NewMessage) by {}
    }
}

/// Relaying a packet reports no chat message.
proof fn lemma_relay_sends_no_reports(
    peers: Seq<Peer>,
    from: PeerMapKey,
    bytes: Seq<u8>,
    sender: Seq<u8>,
    acts: Seq<ActionView>,
)
    requires
        relay_sends(peers, from, bytes, sender, acts),
    ensures
        no_reports(acts),
    decreases peers.len(),
{
    if peers.len() > 0 {
        let last = peers.last();
        if last.id != from && last.state is Connected {
            let k = choose|k: int|
                #![trigger acts.take(k)]
                0 <= k <= acts.len() && relay_sends(peers.drop_last(), from, bytes, sender, acts.take(k))
                    && fragmented_send(bytes, last.id, sender, acts.skip(k));
            lemma_relay_sends_no_reports(peers.drop_last(), from, bytes, sender, acts.take(k));
            lemma_fragmented_send_no_reports(bytes, last.id, sender, acts.skip(k));
            assert forall|j: int| 0 <= j < acts.len() implies !(#[trigger] acts[j] is NewMessage) by {
                if j < k {
                    assert(acts.take(k)[j] == acts[j]);
                } else {
                    assert(acts.skip(k)[j - k] == acts[j]);
                }
            }
        } else {
            lemma_relay_sends_no_reports(peers.drop_last(), from, bytes, sender, acts);
        }
    }
}

/// What one radio event does to the delivered ids and the chat reports: either
/// the ids stay and no chat message is reported, or exactly one id that was not
/// delivered before is appended and exactly one chat message is reported.
pub open spec fn event_delivery(old_seen: Seq<Seq<u8>>, new_seen: Seq<Seq<u8>>, acts: Seq<ActionView>) -> bool {
    ||| new_seen == old_seen && no_reports(acts)
    ||| exists|id: Seq<u8>, k: int|
        #![trigger old_seen.push(id), acts[k]]
        {
            &&& !old_seen.contains(id)
            &&& new_seen == old_seen.push(id)
            &&& 0 <= k < acts.len()
            &&& acts[k] is NewMessage
            &&& forall|j: int| 0 <= j < acts.len() && j != k ==> !(#[trigger] acts[j] is NewMessage)
        }
}

/// Each message is delivered at most once, across any sequence of radio
/// events: an event reports a chat message only together with recording one id
/// that was not delivered before, reports at most one, and records nothing
/// without reporting it. With `lemma_seen_only_grows` (recorded ids stay) this
/// means no id is reported twice.
pub proof fn lemma_event_delivers_once(old: NetworkManager, new: NetworkManager, event: BleEvent, acts: Seq<ActionView>)
    requires
        ble_event_effect(old, new, event, acts),
    ensures
        event_delivery(old.spec_seen(), new.spec_seen(), acts),
{
    let o = old.spec_seen();
    let n = new.spec_seen();
    match event {
        BleEvent::DataReceived { sender, data } => {
            let i = peer_index(old.spec_peers(), sender);
            if i >= 0 {
                let self_id = bitchat_id_of(old.spec_identity().noise_keypair.public@);
                let peers = old.spec_peers();
                let (k, relay) = choose|k: int, relay: Option<PacketView>|
                    0 <= k <= acts.len() && #[trigger] peer_data_effect(
                        peers[i].info(),
                        peers[i].state,
                        new.spec_peers()[i].info(),
                        new.spec_peers()[i].state,
                        data@,
                        self_id,
                        o,
                        n,
                        old.spec_buffers(),
                        new.spec_buffers(),
                        acts.take(k),
                        relay,
                    ) && match relay {
                        Some(rp) => relay_sends(
                            new.spec_peers(),
                            sender,
                            protocol::packet_bytes(rp),
                            self_id,
                            acts.skip(k),
                        ),
                        None => k == acts.len(),
                    };
                lemma_peer_data_delivers_once(
                    peers[i].info(),
                    peers[i].state,
                    new.spec_peers()[i].info(),
                    new.spec_peers()[i].state,
                    data@,
                    self_id,
                    o,
                    n,
                    old.spec_buffers(),
                    new.spec_buffers(),
                    acts.take(k),
                    relay,
                );
                match relay {
                    Some(rp) => lemma_relay_sends_no_reports(
                        new.spec_peers(),
                        sender,
                        protocol::packet_bytes(rp),
                        self_id,
                        acts.skip(k),
                    ),
                    None => {
                        assert(acts.skip(k).len() == 0);
                    },
                }
                assert(no_reports(acts.skip(k)));
                if n == o {
                    if !no_reports(acts.take(k)) {
                        let id = choose|id: Seq<u8>|
                            #![trigger o.push(id)]
                            !o.contains(id) && n == o.push(id) && acts.take(k).len() == 1
                                && acts.take(k)[0] is NewMessage;
                        assert(o.push(id).len() == o.len() + 1);
                    }
                    assert forall|j: int| 0 <= j < acts.len() implies !(#[trigger] acts[j] is NewMessage) by {
                        if j < k {
                            assert(acts.take(k)[j] == acts[j]);
                        } else {
                            assert(acts.skip(k)[j - k] == acts[j]);
                        }
                    }
                } else {
                    let id = choose|id: Seq<u8>|
                        #![trigger o.push(id)]
                        !o.contains(id) && n == o.push(id) && acts.take(k).len() == 1
                            && acts.take(k)[0] is NewMessage;
                    assert(acts.take(k)[0] == acts[0]);
                    assert forall|j: int| 0 <= j < acts.len() && j != 0 implies !(#[trigger] acts[j] is NewMessage) by {
                        assert(acts.skip(k)[j - k] == acts[j]);
                    }
                    assert(o.push(id) == n);
                    assert(acts[0] is NewMessage);
                }
            } else {
                assert(no_reports(acts));
            }
        },
        BleEvent::Discovered { id, name } => {
            assert forall|j: int| 0 <= j < acts.len() implies !(#[trigger] acts[j] is NewMessage) by {}
        },
        BleEvent::ServicesDiscovered(id) => {
            assert forall|j: int| 0 <= j < acts.len() implies !(#[trigger] acts[j] is NewMessage) by {}
        },
        _ => {
            assert forall|j: int| 0 <= j < acts.len() implies !(#[trigger] acts[j] is NewMessage) by {}
        },
    }
}

/// How many chat messages `acts` reports.
pub open spec fn report_count(acts: Seq<ActionView>) -> nat
    decreases acts.len(),
{
    if acts.len() == 0 {
        0
    } else {
        report_count(acts.drop_last()) + if acts.last() is NewMessage {
            1nat
        } else {
            0nat
        }
    }
}

proof fn lemma_report_count(acts: Seq<ActionView>, k: int)
    ensures
        no_reports(acts) ==> report_count(acts) == 0,
        0 <= k < acts.len() && acts[k] is NewMessage && (forall|j: int|
            0 <= j < acts.len() && j != k ==> !(#[trigger] acts[j] is NewMessage)) ==> report_count(acts) == 1,
    decreases acts.len(),
{
    if acts.len() > 0 {
        let d = acts.drop_last();
        assert forall|j: int| 0 <= j < d.len() implies d[j] == acts[j] by {}
        lemma_report_count(d, k);
        if no_reports(acts) {
            assert forall|j: int| 0 <= j < d.len() implies !(#[trigger] d[j] is NewMessage) by {
                assert(d[j] == acts[j]);
            }
            assert(!(acts[acts.len() - 1] is NewMessage));
        }
        if 0 <= k < acts.len() && acts[k] is NewMessage && (forall|j: int|
            0 <= j < acts.len() && j != k ==> !(#[trigger] acts[j] is NewMessage)) {
            if k == acts.len() - 1 {
                assert forall|j: int| 0 <= j < d.len() implies !(#[trigger] d[j] is NewMessage) by {
                    assert(d[j] == acts[j]);
                }
            } else {
                assert(d[k] == acts[k]);
                assert forall|j: int| 0 <= j < d.len() && j != k implies !(#[trigger] d[j] is NewMessage) by {
                    assert(d[j] == acts[j]);
                }
                assert(!(acts[acts.len() - 1] is NewMessage));
            }
        }
    }
}

/// `ms[i + 1]` is the node after radio event `events[i]` on `ms[i]`, which
/// emitted `acts[i]`.
pub open spec fn event_run(ms: Seq<NetworkManager>, events: Seq<BleEvent>, acts: Seq<Seq<ActionView>>) -> bool {
    &&& ms.len() == events.len() + 1
    &&& acts.len() == events.len()
    &&& forall|i: int| 0 <= i < events.len() ==> #[trigger] ble_event_effect(ms[i], ms[i + 1], events[i], acts[i])
}

/// How many chat messages a run of events reports in all.
pub open spec fn total_reports(acts: Seq<Seq<ActionView>>) -> nat
    decreases acts.len(),
{
    if acts.len() == 0 {
        0
    } else {
        total_reports(acts.drop_last()) + report_count(acts.last())
    }
}

/// Over any run of radio events, messages are delivered at most once: the ids
/// delivered at the start stay, in order, at the front; the run reports exactly
/// as many chat messages as it records new ids; and the recorded ids stay free
/// of duplicates, so no id is reported twice.
pub proof fn lemma_run_delivers_once(ms: Seq<NetworkManager>, events: Seq<BleEvent>, acts: Seq<Seq<ActionView>>)
    requires
        event_run(ms, events, acts),
    ensures
        ms.last().spec_seen().len() >= ms[0].spec_seen().len(),
        ms.last().spec_seen().take(ms[0].spec_seen().len() as int) == ms[0].spec_seen(),
        total_reports(acts) == ms.last().spec_seen().len() - ms[0].spec_seen().len(),
        ms[0].spec_seen().no_duplicates() ==> ms.last().spec_seen().no_duplicates(),
    decreases events.len(),
{
    let s0 = ms[0].spec_seen();
    if events.len() == 0 {
        assert(s0.take(s0.len() as int) =~= s0);
    } else {
        let n = events.len() - 1;
        let ms1 = ms.drop_last();
        let ev1 = events.drop_last();
        let ac1 = acts.drop_last();
        assert forall|i: int| 0 <= i < ev1.len() implies #[trigger] ble_event_effect(ms1[i], ms1[i + 1], ev1[i], ac1[i]) by {
            assert(ble_event_effect(ms[i], ms[i + 1], events[i], acts[i]));
        }
        lemma_run_delivers_once(ms1, ev1, ac1);
        assert(ble_event_effect(ms[n], ms[n + 1], events[n], acts[n]));
        lemma_event_delivers_once(ms[n], ms[n + 1], events[n], acts[n]);
        let a = ms[n].spec_seen();
        let b = ms[n + 1].spec_seen();
        assert(ms1.last() == ms[n]);
        assert(ms.last() == ms[n + 1]);
        assert(acts.last() == acts[n]);
        if b == a {
            lemma_report_count(acts[n], 0);
        } else {
            let (id, k) = choose|id: Seq<u8>, k: int|
                #![trigger a.push(id), acts[n][k]]
                {
                    &&& !a.contains(id)
                    &&& b == a.push(id)
                    &&& 0 <= k < acts[n].len()
                    &&& acts[n][k] is NewMessage
                    &&& forall|j: int| 0 <= j < acts[n].len() && j != k ==> !(#[trigger] acts[n][j] is NewMessage)
                };
            lemma_report_count(acts[n], k);
            assert(b.take(s0.len() as int) =~= a.take(s0.len() as int));
            if a.no_duplicates() {
                assert forall|x: int, y: int| 0 <= x < b.len() && 0 <= y < b.len() && x != y implies b[x] != b[y] by {
                    if x == a.len() as int {
                        assert(a[y] == b[y]);
                        assert(a.contains(a[y]));
                    } else if y == a.len() as int {
                        assert(a[x] == b[x]);
                        assert(a.contains(a[x]));
                    }
                }
            }
        }
    }
}

/// Sending bytes to a peer emits at least one radio write to it.
proof fn lemma_fragmented_send_reaches(bytes: Seq<u8>, receiver: PeerMapKey, sender: Seq<u8>, acts: Seq<ActionView>)
    requires
        fragmented_send(bytes, receiver, sender, acts),
    ensures
        acts.len() > 0,
        acts[0] is SendData && acts[0]->SendData_0 == receiver,
{
    if bytes.len() > 480 {
        let (fid, stamps) = choose|fid: Seq<u8>, stamps: Seq<u64>|
            fragments_sent(bytes, receiver, sender, acts, fid, stamps);
        assert(chunk_count(bytes.len() as int) >= 1);
        assert(acts[0] is SendData);
    }
}

/// Relaying reaches every connected peer other than the one the packet came
/// from: among the actions is a radio write to it.
proof fn lemma_relay_sends_reaches(
    peers: Seq<Peer>,
    from: PeerMapKey,
    bytes: Seq<u8>,
    sender: Seq<u8>,
    acts: Seq<ActionView>,
    j: int,
)
    requires
        relay_sends(peers, from, bytes, sender, acts),
        0 <= j < peers.len(),
        peers[j].id != from,
        peers[j].state is Connected,
    ensures
        exists|k: int| 0 <= k < acts.len() && #[trigger] acts[k] is SendData && acts[k]->SendData_0 == peers[j].id,
    decreases peers.len(),
{
    let last = peers.last();
    if last.id != from && last.state is Connected {
        let k = choose|k: int|
            #![trigger acts.take(k)]
            0 <= k <= acts.len() && relay_sends(peers.drop_last(), from, bytes, sender, acts.take(k))
                && fragmented_send(bytes, last.id, sender, acts.skip(k));
        if j == peers.len() - 1 {
            lemma_fragmented_send_reaches(bytes, last.id, sender, acts.skip(k));
            assert(acts.skip(k)[0] == acts[k]);
            assert(acts[k] is SendData);
        } else {
            assert(peers.drop_last()[j] == peers[j]);
            lemma_relay_sends_reaches(peers.drop_last(), from, bytes, sender, acts.take(k), j);
            let k2 = choose|k2: int|
                0 <= k2 < acts.take(k).len() && #[trigger] acts.take(k)[k2] is SendData
                    && acts.take(k)[k2]->SendData_0 == peers[j].id;
            assert(acts.take(k)[k2] == acts[k2]);
            assert(acts[k2] is SendData);
        }
    } else {
        assert(j != peers.len() - 1);
        assert(peers.drop_last()[j] == peers[j]);
        lemma_relay_sends_reaches(peers.drop_last(), from, bytes, sender, acts, j);
    }
}

/// A node receiving a chat message from a connected peer, as the peer's end
/// of their finished handshake encrypted it, delivers it: the message id is
/// recorded and the first action reports exactly the text sent. A broadcast is
/// then relayed, with its TTL lowered, to every other connected peer; a private
/// message goes no further.
pub proof fn lemma_event_round_trip(
    old: NetworkManager,
    new: NetworkManager,
    from: PeerMapKey,
    data: Vec<u8>,
    acts: Seq<ActionView>,
    i: int,
    a: NoiseSession,
    a2: NoiseSession,
    p: PacketView,
    mid: Seq<u8>,
    text: Seq<char>,
    recipient: Option<Seq<u8>>,
)
    requires
        old.wf(),
        ble_event_effect(old, new, BleEvent::DataReceived { sender: from, data }, acts),
        0 <= i < old.spec_peers().len(),
        old.spec_peers()[i].id == from,
        old.spec_peers()[i].state is Connected,
        crate::noise::paired(a, session_in(old.spec_peers()[i].state)),
        a.sent().len() == session_in(old.spec_peers()[i].state).received(),
        session_in(old.spec_peers()[i].state).received() < u64::MAX,
        encrypted_by(p, mid, text, p.sender_id, recipient, a, a2),
        data@ == protocol::packet_bytes(p),
        p.sender_id.len() == 8,
        recipient matches Some(r) ==> r.len() == 8,
        p.payload.len() <= 65535,
        vstd::utf8::encode_utf8(text).len() <= 0xffff,
        !old.spec_seen().contains(mid),
    ensures
        new.spec_seen() == old.spec_seen().push(mid),
        acts.len() >= 1,
        acts[0] == ActionView::NewMessage(from, old.spec_peers()[i].name@, text, p.timestamp),
        recipient is Some ==> acts.len() == 1,
        recipient is None ==> relay_sends(
            new.spec_peers(),
            from,
            protocol::packet_bytes(relayed(p)),
            bitchat_id_of(old.spec_identity().noise_keypair.public@),
            acts.skip(1),
        ),
        recipient is None ==> forall|j: int|
            0 <= j < old.spec_peers().len() && j != i && (#[trigger] old.spec_peers()[j]).state is Connected
                ==> exists|k: int|
                1 <= k < acts.len() && #[trigger] acts[k] is SendData && acts[k]->SendData_0
                    == old.spec_peers()[j].id,
{
    let peers = old.spec_peers();
    let self_id = bitchat_id_of(old.spec_identity().noise_keypair.public@);
    let b = session_in(peers[i].state);
    assert(peer_index(peers, from) == i) by {
        let q = peer_index(peers, from);
        assert(0 <= q < peers.len() && peers[q].id == from);
        if q != i {
            if q < i {
                assert(peers[q].id != peers[i].id);
            } else {
                assert(peers[i].id != peers[q].id);
            }
        }
    }
    let (k, relay) = choose|k: int, relay: Option<PacketView>|
        0 <= k <= acts.len() && #[trigger] peer_data_effect(
            peers[i].info(),
            peers[i].state,
            new.spec_peers()[i].info(),
            new.spec_peers()[i].state,
            data@,
            self_id,
            old.spec_seen(),
            new.spec_seen(),
            old.spec_buffers(),
            new.spec_buffers(),
            acts.take(k),
            relay,
        ) && match relay {
            Some(rp) => relay_sends(new.spec_peers(), from, protocol::packet_bytes(rp), self_id, acts.skip(k)),
            None => k == acts.len(),
        };
    lemma_inner_flags();
    assert(protocol::packet_wf(p));
    protocol::lemma_packet_roundtrip(p, Seq::empty());
    assert(data@ + Seq::<u8>::empty() =~= data@);
    assert(protocol::parse_packet(data@) == Ok::<PacketView, protocol::PacketError>(p));
    assert(peers[i].state == PeerState::Connected { noise: b });
    lemma_send_receive_round_trip(
        a,
        a2,
        b,
        p,
        mid,
        text,
        p.sender_id,
        recipient,
        peers[i].info(),
        new.spec_peers()[i].state,
        old.spec_seen(),
        new.spec_seen(),
        acts.take(k),
        relay,
    );
    assert(acts.take(k).len() == 1);
    assert(k == 1);
    assert(acts[0] == acts.take(k)[0]);
    if recipient is None {
        assert forall|j: int|
            0 <= j < peers.len() && j != i && (#[trigger] peers[j]).state is Connected implies exists|kk: int|
            1 <= kk < acts.len() && #[trigger] acts[kk] is SendData && acts[kk]->SendData_0 == peers[j].id by {
            assert(new.spec_peers()[j] == peers[j]);
            if j < i {
                assert(peers[j].id != peers[i].id);
            } else {
                assert(peers[i].id != peers[j].id);
            }
            lemma_relay_sends_reaches(
                new.spec_peers(),
                from,
                protocol::packet_bytes(relayed(p)),
                self_id,
                acts.skip(1),
                j,
            );
            let k2 = choose|k2: int|
                0 <= k2 < acts.skip(1).len() && #[trigger] acts.skip(1)[k2] is SendData
                    && acts.skip(1)[k2]->SendData_0 == new.spec_peers()[j].id;
            assert(acts.skip(1)[k2] == acts[k2 + 1]);
            assert(acts[k2 + 1] is SendData);
        }
    }
}

/// Finding a peer twice changes nothing the second time: the node keeps the
/// peer as it was and emits nothing.
pub proof fn lemma_discovery_idempotent(
    m0: NetworkManager,
    m1: NetworkManager,
    m2: NetworkManager,
    id: PeerMapKey,
    name: String,
    name2: String,
    acts1: Seq<ActionView>,
    acts2: Seq<ActionView>,
)
    requires
        ble_event_effect(m0, m1, BleEvent::Discovered { id, name }, acts1),
        ble_event_effect(m1, m2, BleEvent::Discovered { id, name: name2 }, acts2),
    ensures
        same_state(m1, m2),
        acts2.len() == 0,
{
    let peers = m1.spec_peers();
    if peer_index(m0.spec_peers(), id) >= 0 {
        let j = peer_index(m0.spec_peers(), id);
        assert(peers[j].id == id);
    } else {
        assert(peers[peers.len() - 1].id == id);
    }
}

/// A peer that disconnected is sent no private message: after
/// `Disconnected(id)`, a request to send to `id` emits nothing and leaves the
/// peers as they are.
pub proof fn lemma_disconnected_peer_gets_nothing(
    m0: NetworkManager,
    m1: NetworkManager,
    m2: NetworkManager,
    id: PeerMapKey,
    text: String,
    acts1: Seq<ActionView>,
    acts2: Seq<ActionView>,
)
    requires
        m0.wf(),
        ble_event_effect(m0, m1, BleEvent::Disconnected(id), acts1),
        ui_command_effect(m1, m2, UiCommand::SendPrivateMessage { recipient: id, text }, acts2),
    ensures
        acts2.len() == 0,
        m2.spec_peers() == m1.spec_peers(),
{
    let p0 = m0.spec_peers();
    let p1 = m1.spec_peers();
    let i0 = peer_index(p0, id);
    if i0 >= 0 {
        assert(p1[i0].id == id);
        let j = peer_index(p1, id);
        if j != i0 {
            assert(p0[j].id == p1[j].id);
            if j < i0 {
                assert(p0[j].id != p0[i0].id);
            } else {
                assert(p0[i0].id != p0[j].id);
            }
        }
    }
}

// ---------------------------------------------------------------------------
// User requests
// ---------------------------------------------------------------------------

/// The chat message this node sends for `text`.
pub open spec fn outgoing_message(text: Seq<char>, ts: u64, mid: Seq<u8>) -> protocol::MessageView {
    protocol::MessageView {
        flags: 0,
        timestamp: ts,
        id: mid,
        sender: "Me"@,
        content: text,
        original_sender: None,
        recipient_nickname: None,
    }
}

/// The packet that carries an outgoing chat message before encryption: the
/// message is compressed when its encoding is longer than 64 bytes; a private
/// message names its recipient and lives one hop, a broadcast three.
pub open spec fn inner_message_packet(
    text: Seq<char>,
    ts: u64,
    mid: Seq<u8>,
    sender: Seq<u8>,
    recipient: Option<Seq<u8>>,
) -> PacketView {
    let mb = protocol::message_bytes(outgoing_message(text, ts, mid));
    let compressed = mb.len() > 64;
    let base: u8 = if compressed {
        4
    } else {
        0
    };
    PacketView {
        version: 1,
        packet_type: MessageType::Message,
        ttl: if recipient is Some {
            1
        } else {
            3
        },
        timestamp: ts,
        flags: if recipient is Some {
            base | 1
        } else {
            base
        },
        sender_id: sender,
        recipient_id: recipient,
        payload: if compressed {
            compression::spec_lz4_compress(mb)
        } else {
            mb
        },
        signature: None,
    }
}

/// The encrypted packet that carries ciphertext `ct` of a chat message.
pub open spec fn encrypted_message_packet(
    ct: Seq<u8>,
    ts: u64,
    sender: Seq<u8>,
    recipient: Option<Seq<u8>>,
) -> PacketView {
    PacketView {
        version: 1,
        packet_type: MessageType::NoiseEncrypted,
        ttl: 1,
        timestamp: ts,
        flags: if recipient is Some {
            1
        } else {
            0
        },
        sender_id: sender,
        recipient_id: recipient,
        payload: ct,
        signature: None,
    }
}

/// `p` is an encrypted chat-message packet for `text`: its ciphertext is the
/// inner packet (with the version-4 message id `mid` and the same time) plus a
/// 16-byte tag.
pub open spec fn is_sent_message(
    p: PacketView,
    mid: Seq<u8>,
    text: Seq<char>,
    sender: Seq<u8>,
    recipient: Option<Seq<u8>>,
) -> bool {
    &&& ids::is_v4_uuid(mid)
    &&& mid.len() == 16
    &&& p == encrypted_message_packet(p.payload, p.timestamp, sender, recipient)
    &&& p.payload.len() == protocol::packet_bytes(
        inner_message_packet(text, p.timestamp, mid, sender, recipient),
    ).len() + 16
}

/// A chat text of at most this many UTF-8 bytes always fits in one
/// encrypted message, even when compression makes it longer.
pub const MAX_TEXT_SURE_TO_FIT: usize = 58000;

/// A field behind a one-byte length takes at most 256 bytes.
proof fn lemma_short_field_len(b: Seq<u8>)
    ensures
        protocol::short_field(b).len() <= 256,
{
}

/// `p` is the encrypted chat-message packet for `text` that the session
/// `old_noise` made, becoming `new_noise`: the plaintext it encrypted is the
/// inner packet (with message id `mid` and `p`'s time), recorded as its next
/// sent message, and the ciphertext is that session's sealing of it.
pub open spec fn encrypted_by(
    p: PacketView,
    mid: Seq<u8>,
    text: Seq<char>,
    sender: Seq<u8>,
    recipient: Option<Seq<u8>>,
    old_noise: NoiseSession,
    new_noise: NoiseSession,
) -> bool {
    let inner = protocol::packet_bytes(inner_message_packet(text, p.timestamp, mid, sender, recipient));
    &&& is_sent_message(p, mid, text, sender, recipient)
    &&& new_noise.sent() == old_noise.sent().push(inner)
    &&& old_noise.ours() ==> crate::noise::seals_next(old_noise, p.payload, inner)
}

/// Whatever time and 16-byte message id it is sent with, the inner packet for
/// `text` and the 16-byte tag fit in one Noise message (65535 bytes).
pub open spec fn always_fits(text: Seq<char>, sender: Seq<u8>, recipient: Option<Seq<u8>>) -> bool {
    forall|ts: u64, mid: Seq<u8>|
        #![trigger inner_message_packet(text, ts, mid, sender, recipient)]
        mid.len() == 16 ==> protocol::packet_bytes(inner_message_packet(text, ts, mid, sender, recipient)).len()
            + 16 <= 65535
}

/// Every chat message this node sends carries a version-4 UUID as its id, as
/// `uuid::Uuid::new_v4` makes: 16 bytes, the version nibble 4 in byte 6 and
/// the variant bits `10` in byte 8 (so never, for instance, all zeros).
pub proof fn lemma_sent_id_is_v4(
    p: PacketView,
    mid: Seq<u8>,
    text: Seq<char>,
    sender: Seq<u8>,
    recipient: Option<Seq<u8>>,
    old_noise: NoiseSession,
    new_noise: NoiseSession,
)
    requires
        encrypted_by(p, mid, text, sender, recipient, old_noise, new_noise),
    ensures
        mid.len() == 16,
        mid[6] & 0xf0 == 0x40,
        mid[8] & 0xc0 == 0x80,
        mid != Seq::new(16, |i: int| 0u8),
{
    if mid == Seq::new(16, |i: int| 0u8) {
        assert(mid[6] == 0u8);
        assert(0u8 & 0xf0u8 == 0u8) by (bit_vector);
    }
}

/// The flag bytes an outgoing inner packet can carry.
proof fn lemma_inner_flags()
    ensures
        (4u8 | 1u8) & 1u8 == 1u8,
        (4u8 | 1u8) & 2u8 == 0u8,
        (4u8 | 1u8) & 4u8 == 4u8,
        (0u8 | 1u8) & 1u8 == 1u8,
        (0u8 | 1u8) & 2u8 == 0u8,
        (0u8 | 1u8) & 4u8 == 0u8,
        4u8 & 1u8 == 0u8,
        4u8 & 2u8 == 0u8,
        4u8 & 4u8 == 4u8,
        0u8 & 1u8 == 0u8,
        0u8 & 2u8 == 0u8,
        0u8 & 4u8 == 0u8,
        (4u8 | 1u8) == 5u8,
        (0u8 | 1u8) == 1u8,
{
    assert((4u8 | 1u8) & 1u8 == 1u8) by (bit_vector);
    assert((4u8 | 1u8) & 2u8 == 0u8) by (bit_vector);
    assert((4u8 | 1u8) & 4u8 == 4u8) by (bit_vector);
    assert((0u8 | 1u8) & 1u8 == 1u8) by (bit_vector);
    assert((0u8 | 1u8) & 2u8 == 0u8) by (bit_vector);
    assert((0u8 | 1u8) & 4u8 == 0u8) by (bit_vector);
    assert(4u8 & 1u8 == 0u8) by (bit_vector);
    assert(4u8 & 2u8 == 0u8) by (bit_vector);
    assert(4u8 & 4u8 == 4u8) by (bit_vector);
    assert(0u8 & 1u8 == 0u8) by (bit_vector);
    assert(0u8 & 2u8 == 0u8) by (bit_vector);
    assert(0u8 & 4u8 == 0u8) by (bit_vector);
    assert((4u8 | 1u8) == 5u8) by (bit_vector);
    assert((0u8 | 1u8) == 1u8) by (bit_vector);
}

/// An outgoing chat message is well formed when its text fits the length
/// field.
proof fn lemma_outgoing_wf(text: Seq<char>, ts: u64, mid: Seq<u8>)
    requires
        mid.len() == 16,
        vstd::utf8::encode_utf8(text).len() <= 0xffff,
    ensures
        protocol::message_wf(outgoing_message(text, ts, mid)),
{
    reveal_strlit("Me");
    assert(vstd::utf8::is_ascii_chars("Me"@));
    vstd::utf8::is_ascii_chars_encode_utf8("Me"@);
    assert(0u8 & 4u8 == 0u8) by (bit_vector);
    assert(0u8 & 8u8 == 0u8) by (bit_vector);
}

/// Send/receive round trip: when one end of a finished handshake encrypts a
/// chat message for `text` (compressed or not, as this node builds it) and
/// the other end, having received as many messages as the first has sent,
/// handles that packet from a peer, the message is delivered: its id is
/// recorded and a `NewMessage` with exactly `text` and the packet's time is
/// reported. A broadcast (inner TTL 3) is passed on with its TTL lowered (the
/// outer TTL 1 becomes 0, nothing else changes); a private message (inner TTL
/// 1) is not.
pub proof fn lemma_send_receive_round_trip(
    a: NoiseSession,
    a2: NoiseSession,
    b: NoiseSession,
    p: PacketView,
    mid: Seq<u8>,
    text: Seq<char>,
    sender: Seq<u8>,
    recipient: Option<Seq<u8>>,
    info: PeerInfo,
    new_state: PeerState,
    old_seen: Seq<Seq<u8>>,
    new_seen: Seq<Seq<u8>>,
    acts: Seq<ActionView>,
    relay: Option<PacketView>,
)
    requires
        crate::noise::paired(a, b),
        a.sent().len() == b.received(),
        b.received() < u64::MAX,
        encrypted_by(p, mid, text, sender, recipient, a, a2),
        p.payload.len() <= 65535,
        sender.len() == 8,
        recipient matches Some(r) ==> r.len() == 8,
        vstd::utf8::encode_utf8(text).len() <= 0xffff,
        !old_seen.contains(mid),
        encrypted_effect(info, PeerState::Connected { noise: b }, new_state, p, old_seen, new_seen, acts, relay),
    ensures
        new_state is Connected,
        new_seen == old_seen.push(mid),
        acts == seq![ActionView::NewMessage(info.id, info.name, text, p.timestamp)],
        relay == if recipient is None {
            Some(relayed(p))
        } else {
            None
        },
        relay matches Some(r) ==> r == (PacketView { ttl: 0, ..p }),
{
    let ts = p.timestamp;
    let inner = inner_message_packet(text, ts, mid, sender, recipient);
    let ib = protocol::packet_bytes(inner);
    let m0 = outgoing_message(text, ts, mid);
    let mb = protocol::message_bytes(m0);
    // The receiving end opens the ciphertext to the inner packet's bytes.
    crate::noise::lemma_transport_round_trip(a, b, p.payload, ib);
    assert(crate::noise::opens_next(b, p.payload, ib));
    assert(opens(b, p.payload));
    assert(opened(b, p.payload) == ib);
    assert(decoders_agree(ib));
    // The inner packet decodes back.
    lemma_inner_flags();
    assert(ib.len() >= inner.payload.len() + 22);
    assert(protocol::packet_wf(inner));
    protocol::lemma_packet_roundtrip(inner, Seq::empty());
    assert(ib + Seq::<u8>::empty() =~= ib);
    assert(protocol::parse_packet(ib) == Ok::<PacketView, protocol::PacketError>(inner));
    assert(!protocol::overruns_header(ib));
    // Its body is the message's encoding, which decodes back.
    lemma_outgoing_wf(text, ts, mid);
    assert(mb.len() <= u32::MAX);
    if mb.len() > 64 {
        assert(protocol::flag_set(inner.flags, 4));
        assert(compression::spec_lz4_decompress(inner.payload) == Some(mb));
    } else {
        assert(!protocol::flag_set(inner.flags, 4));
    }
    assert(protocol::parse_message(mb) == Ok::<protocol::MessageView, Seq<char>>(m0));
    assert(decrypted_delivery(ib, old_seen) == Delivery::Delivered(m0, inner));
}

/// Encrypts `text` for a peer as a chat message. `None` when encryption fails
/// (or when the plaintext would be too long for a buffer).
fn create_encrypted_message_packet(
    noise: &mut NoiseSession,
    text: &str,
    sender_id: [u8; 8],
    recipient_id: Option<[u8; 8]>,
) -> (r: Option<BitchatPacket>)
    ensures
        old(noise).in_transport() ==> final(noise).in_transport(),
        !old(noise).in_transport() ==> *final(noise) == *old(noise) && r is None,
        old(noise).can_send() && vstd::utf8::encode_utf8(text@).len() <= MAX_TEXT_SURE_TO_FIT ==> r is Some,
        old(noise).can_send() && always_fits(text@, sender_id@, protocol::opt_array8(recipient_id)) ==> r is Some,
        final(noise).ours() == old(noise).ours(),
        r matches Some(p) ==> exists|mid: Seq<u8>|
            #![trigger encrypted_by(p@, mid, text@, sender_id@, protocol::opt_array8(recipient_id), *old(noise), *final(noise))]
            encrypted_by(p@, mid, text@, sender_id@, protocol::opt_array8(recipient_id), *old(noise), *final(noise)),
        r is None ==> final(noise).sent() == old(noise).sent(),
{
    let now = now_millis();
    let id = new_uuid_v4();
    let message = BitchatMessage {
        flags: MessageFlags::empty(),
        timestamp: now,
        id,
        sender: String::from_str("Me"),
        content: String::from_str(text),
        original_sender: None,
        recipient_nickname: None,
    };
    let message_bytes = message.to_bytes();
    let ghost text_len = vstd::utf8::encode_utf8(text@).len();
    proof {
        lemma_short_field_len(vstd::utf8::encode_utf8(ids::hyphenated(id@)));
        lemma_short_field_len(vstd::utf8::encode_utf8("Me"@));
        assert(message_bytes@.len() <= 523 + text_len);
    }
    let compressed = message_bytes.len() > 64;
    let (payload, mut flags) = if compressed {
        (compression::compress(message_bytes.as_slice()), PacketFlags::is_compressed())
    } else {
        (message_bytes, PacketFlags::empty())
    };
    proof {
        if text_len <= MAX_TEXT_SURE_TO_FIT {
            let m = message_bytes@.len();
            assert(m * 110 / 100 <= 64375) by (nonlinear_arith)
                requires
                    m <= 58523,
            ;
            assert(payload@.len() <= 64399);
        }
    }
    let has_recipient = recipient_id.is_some();
    if has_recipient {
        flags = flags.union(PacketFlags::has_recipient());
    }
    let inner_packet = BitchatPacket {
        version: 1,
        packet_type: MessageType::Message,
        ttl: if has_recipient {
            1
        } else {
            3
        },
        timestamp: now,
        flags,
        sender_id,
        recipient_id,
        payload,
        signature: None,
    };
    proof {
        assert(message@ == outgoing_message(text@, now, id@));
        assert(inner_packet@ == inner_message_packet(text@, now, id@, sender_id@, protocol::opt_array8(recipient_id)));
    }
    let inner_bytes = inner_packet.to_bytes();
    assert(inner_bytes@.len() <= 30 + payload@.len());
    proof {
        let inner = inner_message_packet(text@, now, id@, sender_id@, protocol::opt_array8(recipient_id));
        assert(inner_bytes@ == protocol::packet_bytes(inner));
    }
    if inner_bytes.len() > usize::MAX - 100 {
        return None;
    }
    match noise.encrypt(inner_bytes.as_slice()) {
        Ok(encrypted_payload) => {
            let outer_flags = if has_recipient {
                PacketFlags::has_recipient()
            } else {
                PacketFlags::empty()
            };
            let p = BitchatPacket {
                version: 1,
                packet_type: MessageType::NoiseEncrypted,
                ttl: 1,
                timestamp: now,
                flags: outer_flags,
                sender_id,
                recipient_id,
                payload: encrypted_payload,
                signature: None,
            };
            proof {
                assert(is_sent_message(p@, id@, text@, sender_id@, protocol::opt_array8(recipient_id)));
                assert(encrypted_by(p@, id@, text@, sender_id@, protocol::opt_array8(recipient_id), *old(noise), *noise));
            }
            Some(p)
        },
        Err(_) => None,
    }
}

/// Sending `text` from `sender` to `peer` cannot fail: the peer's session can
/// still encrypt, and the text is short enough to fit whatever compression
/// makes of it, or its inner packet fits a Noise message whatever time and id
/// it gets.
pub open spec fn sure_to_send(peer: Peer, text: Seq<char>, sender: Seq<u8>) -> bool {
    &&& peer.state matches PeerState::Connected { noise } && noise.can_send()
    &&& vstd::utf8::encode_utf8(text).len() <= MAX_TEXT_SURE_TO_FIT || always_fits(
        text,
        sender,
        protocol::opt_array8(peer.bitchat_id),
    )
}

/// The session of a connected peer.
pub open spec fn session_of(peer: Peer) -> NoiseSession {
    match peer.state {
        PeerState::Connected { noise } => noise,
        _ => arbitrary(),
    }
}

/// What sending `text` to `peer` (which becomes `new_peer`) emits: the
/// encrypted chat-message packet its session made, sent as `fragmented_send`
/// says; or, when encryption failed (which `sure_to_send` rules out), nothing,
/// with the session having encrypted nothing.
pub open spec fn message_send(
    peer: Peer,
    new_peer: Peer,
    text: Seq<char>,
    sender: Seq<u8>,
    acts: Seq<ActionView>,
) -> bool {
    ||| acts.len() == 0 && session_of(new_peer).sent() == session_of(peer).sent() && !sure_to_send(
        peer,
        text,
        sender,
    )
    ||| exists|p: PacketView, mid: Seq<u8>|
        #![trigger encrypted_by(p, mid, text, sender, protocol::opt_array8(peer.bitchat_id), session_of(peer), session_of(new_peer))]
        encrypted_by(
            p,
            mid,
            text,
            sender,
            protocol::opt_array8(peer.bitchat_id),
            session_of(peer),
            session_of(new_peer),
        ) && fragmented_send(protocol::packet_bytes(p), peer.id, sender, acts)
}

/// `acts` sends `text` to every connected peer of `peers`, in order, each
/// peer becoming the one at the same place in `new_peers`.
pub open spec fn broadcast_sends(
    peers: Seq<Peer>,
    new_peers: Seq<Peer>,
    text: Seq<char>,
    sender: Seq<u8>,
    acts: Seq<ActionView>,
) -> bool
    decreases peers.len(),
{
    if peers.len() == 0 {
        acts.len() == 0
    } else {
        let last = peers.last();
        let new_last = new_peers[peers.len() - 1];
        if last.state is Connected {
            exists|k: int|
                #![trigger acts.take(k)]
                0 <= k <= acts.len() && broadcast_sends(peers.drop_last(), new_peers, text, sender, acts.take(k))
                    && message_send(last, new_last, text, sender, acts.skip(k))
        } else {
            broadcast_sends(peers.drop_last(), new_peers, text, sender, acts)
        }
    }
}

/// A broadcast over a prefix of the peers is unaffected by changes to peers
/// past that prefix.
proof fn lemma_broadcast_prefix_stable(
    peers: Seq<Peer>,
    a: Seq<Peer>,
    b: Seq<Peer>,
    text: Seq<char>,
    sender: Seq<u8>,
    acts: Seq<ActionView>,
)
    requires
        peers.len() <= a.len(),
        peers.len() <= b.len(),
        forall|j: int| 0 <= j < peers.len() ==> a[j] == b[j],
        broadcast_sends(peers, a, text, sender, acts),
    ensures
        broadcast_sends(peers, b, text, sender, acts),
    decreases peers.len(),
{
    if peers.len() > 0 {
        let last = peers.last();
        if last.state is Connected {
            let k = choose|k: int|
                #![trigger acts.take(k)]
                0 <= k <= acts.len() && broadcast_sends(peers.drop_last(), a, text, sender, acts.take(k))
                    && message_send(last, a[peers.len() - 1], text, sender, acts.skip(k));
            lemma_broadcast_prefix_stable(peers.drop_last(), a, b, text, sender, acts.take(k));
        } else {
            lemma_broadcast_prefix_stable(peers.drop_last(), a, b, text, sender, acts);
        }
    }
}

/// Sending moved connected peers' sessions on and changed nothing else about
/// any peer.
pub open spec fn peers_kept(old: Seq<Peer>, new: Seq<Peer>) -> bool {
    &&& new.len() == old.len()
    &&& forall|j: int|
        #![trigger new[j]]
        0 <= j < old.len() ==> new[j].info() == old[j].info() && (old[j].state is Connected
            ==> new[j].state is Connected) && (!(old[j].state is Connected) ==> new[j] == old[j])
}

/// What a user request does: a broadcast is encrypted for and sent to every
/// connected peer; a private message to a connected peer is sent to it alone;
/// a private message to an unknown or unconnected peer is dropped.
pub open spec fn ui_command_effect(old: NetworkManager, new: NetworkManager, cmd: UiCommand, acts: Seq<ActionView>) -> bool {
    let self_id = bitchat_id_of(old.spec_identity().noise_keypair.public@);
    let peers = old.spec_peers();
    &&& new.spec_seen() == old.spec_seen()
    &&& new.spec_buffers() == old.spec_buffers()
    &&& peers_kept(peers, new.spec_peers())
    &&& match cmd {
        UiCommand::SendMessage(text) => broadcast_sends(peers, new.spec_peers(), text@, self_id, acts),
        UiCommand::SendPrivateMessage { recipient, text } => {
            let i = peer_index(peers, recipient);
            if i >= 0 && peers[i].state is Connected {
                message_send(peers[i], new.spec_peers()[i], text@, self_id, acts)
            } else {
                new.spec_peers() == peers && acts.len() == 0
            }
        },
    }
}

impl NetworkManager {
    /// Encrypts `text` for the connected peer at `i` and sends it to that peer.
    fn send_to_peer(&mut self, i: usize, text: &str, actions: &mut Vec<NetworkAction>)
        requires
            old(self).wf(),
            i < old(self).peers@.len(),
            old(self).peers@[i as int].state is Connected,
        ensures
            final(self).wf(),
            final(self).identity == old(self).identity,
            final(self).seen_messages == old(self).seen_messages,
            final(self).reassembly_buffers == old(self).reassembly_buffers,
            final(self).peers@.len() == old(self).peers@.len(),
            forall|j: int| 0 <= j < old(self).peers@.len() && j != i ==> final(self).peers@[j] == old(self).peers@[j],
            final(self).peers@[i as int].info() == old(self).peers@[i as int].info(),
            final(self).peers@[i as int].state is Connected,
            final(actions)@.len() >= old(actions)@.len(),
            forall|k: int| 0 <= k < old(actions)@.len() ==> final(actions)@[k] == old(actions)@[k],
            message_send(
                old(self).peers@[i as int],
                final(self).peers@[i as int],
                text@,
                bitchat_id_of(old(self).identity.noise_keypair.public@),
                actions_view(final(actions)@).subrange(old(actions)@.len() as int, final(actions)@.len() as int),
            ),
    {
        let ghost old_self = *self;
        let ghost start = actions@.len();
        let self_bitchat_id = self.self_bitchat_id();
        let mut peer = self.peers.remove(i);
        let mut state = PeerState::Transitioning;
        std::mem::swap(&mut state, &mut peer.state);
        let ghost mut n0: NoiseSession = arbitrary();
        let ghost mut n1: NoiseSession = arbitrary();
        let packet = match state {
            PeerState::Connected { noise } => {
                proof {
                    assert(old_self.peers@[i as int] == old(self).peers@[i as int]);
                    assert(state_wf(old_self.peers@[i as int].state));
                    n0 = noise;
                }
                let mut noise = noise;
                let packet = create_encrypted_message_packet(&mut noise, text, self_bitchat_id, peer.bitchat_id);
                proof {
                    n1 = noise;
                }
                peer.state = PeerState::Connected { noise };
                packet
            },
            _ => {
                proof {
                    assert(false);
                }
                None
            },
        };
        let receiver = peer.id;
        self.peers.insert(i, peer);
        proof {
            assert forall|a: int, b: int| 0 <= a < b < self.peers@.len() implies self.peers@[a].id != self.peers@[b].id by {
                assert(self.peers@[a].id == old_self.peers@[a].id);
                assert(self.peers@[b].id == old_self.peers@[b].id);
            }
            assert forall|a: int| 0 <= a < self.peers@.len() implies state_wf(#[trigger] self.peers@[a].state) by {
                if a != i {
                    assert(self.peers@[a] == old_self.peers@[a]);
                }
            }
        }
        match packet {
            Some(p) => {
                let ghost pv = p@;
                self.send_packet_fragmented(p, receiver, actions);
                proof {
                    let seg = actions_view(actions@).subrange(start as int, actions@.len() as int);
                    let rec = protocol::opt_array8(old_self.peers@[i as int].bitchat_id);
                    let mid = choose|mid: Seq<u8>| encrypted_by(pv, mid, text@, self_bitchat_id@, rec, n0, n1);
                    assert(session_of(old_self.peers@[i as int]) == n0);
                    assert(session_of(self.peers@[i as int]) == n1);
                    assert(encrypted_by(pv, mid, text@, self_bitchat_id@, rec, n0, n1));
                    assert(fragmented_send(protocol::packet_bytes(pv), old_self.peers@[i as int].id, self_bitchat_id@, seg));
                }
            },
            None => {
                assert(actions_view(actions@).subrange(start as int, actions@.len() as int).len() == 0);
            },
        }
    }

    /// Handles one user request and returns the actions to perform, in order.
    pub fn handle_ui_command(&mut self, command: UiCommand) -> (acts: Vec<NetworkAction>)
        requires
            old(self).wf(),
        ensures
            final(self).wf(),
            final(self).spec_identity() == old(self).spec_identity(),
            ui_command_effect(*old(self), *final(self), command, actions_view(acts@)),
    {
        let ghost old_self = *self;
        let mut actions: Vec<NetworkAction> = Vec::new();
        match command {
            UiCommand::SendMessage(text) => {
                let mut i: usize = 0;
                while i < self.peers.len()
                    invariant
                        self.wf(),
                        i <= self.peers@.len(),
                        self.identity == old_self.identity,
                        self.seen_messages == old_self.seen_messages,
                        self.reassembly_buffers == old_self.reassembly_buffers,
                        peers_kept(old_self.peers@, self.peers@),
                        forall|j: int| i <= j < self.peers@.len() ==> self.peers@[j] == old_self.peers@[j],
                        broadcast_sends(
                            old_self.peers@.take(i as int),
                            self.peers@,
                            text@,
                            bitchat_id_of(old_self.identity.noise_keypair.public@),
                            actions_view(actions@),
                        ),
                    decreases self.peers@.len() - i,
                {
                    let ghost before = actions@;
                    let ghost before_peers = self.peers@;
                    let ghost prefix = old_self.peers@.take(i as int);
                    assert(old_self.peers@.take(i + 1).drop_last() =~= prefix);
                    assert(old_self.peers@.take(i + 1).last() == old_self.peers@[i as int]);
                    let connected = match self.peers[i].state {
                        PeerState::Connected { .. } => true,
                        _ => false,
                    };
                    if connected {
                        self.send_to_peer(i, text.as_str(), &mut actions);
                        proof {
                            let all = actions_view(actions@);
                            let k = before.len() as int;
                            assert(all.take(k) =~= actions_view(before));
                            assert(all.skip(k) =~= actions_view(actions@).subrange(k, actions@.len() as int));
                            lemma_broadcast_prefix_stable(old_self.peers@.take(i as int), before_peers, self.peers@, text@, bitchat_id_of(old_self.identity.noise_keypair.public@), actions_view(before));
                            assert(broadcast_sends(old_self.peers@.take(i + 1), self.peers@, text@, bitchat_id_of(old_self.identity.noise_keypair.public@), all));
                            assert forall|j: int| 0 <= j < old_self.peers@.len() implies #[trigger] self.peers@[j].info() == old_self.peers@[j].info()
                                && (old_self.peers@[j].state is Connected ==> self.peers@[j].state is Connected)
                                && (!(old_self.peers@[j].state is Connected) ==> self.peers@[j] == old_self.peers@[j]) by {
                                if j != i {
                                    assert(self.peers@[j] == before_peers[j]);
                                }
                            }
                        }
                    }
                    i = i + 1;
                }
                assert(old_self.peers@.take(old_self.peers@.len() as int) =~= old_self.peers@);
            },
            UiCommand::SendPrivateMessage { recipient, text } => {
                match find_peer(&self.peers, recipient) {
                    Some(i) => {
                        let connected = match self.peers[i].state {
                            PeerState::Connected { .. } => true,
                            _ => false,
                        };
                        if connected {
                            self.send_to_peer(i, text.as_str(), &mut actions);
                            proof {
                                assert(actions_view(actions@).subrange(0, actions@.len() as int) =~= actions_view(actions@));
                                assert forall|j: int| 0 <= j < old_self.peers@.len() implies #[trigger] self.peers@[j].info() == old_self.peers@[j].info()
                                    && (old_self.peers@[j].state is Connected ==> self.peers@[j].state is Connected)
                                    && (!(old_self.peers@[j].state is Connected) ==> self.peers@[j] == old_self.peers@[j]) by {
                                }
                            }
                        }
                    },
                    None => {},
                }
            },
        }
        actions
    }
}

} // verus!
